use sha2::{Digest, Sha256};
use bcf::cbor::{encode, Value};
use bcf::chain::verify_chain;
use bcf::gap::find_gaps;
use bcf::sig::Alg;
use bcf::verify::verify_bcf;
use bcf::Error;
use ed25519_dalek::{Signer, SigningKey};

fn sha256(data: &[u8]) -> [u8; 32] {
    Sha256::digest(data).into()
}

struct Signer25519 {
    id: String,
    key: SigningKey,
}

impl Signer25519 {
    fn new(id: &str, seed: u8) -> Self {
        Signer25519 { id: id.to_string(), key: SigningKey::from_bytes(&[seed; 32]) }
    }

    fn pubkey(&self) -> Vec<u8> {
        self.key.verifying_key().to_bytes().to_vec()
    }

    fn entry(&self) -> Value {
        Value::Mapping(vec![
            (Value::Int(1), Value::Text(self.id.clone())),
            (Value::Int(2), Value::Bytes(self.pubkey())),
            (Value::Int(3), Value::Int(-8)),
        ])
    }
}

fn body_protected() -> Vec<u8> {
    encode(&Value::Mapping(vec![(
        Value::Int(3),
        Value::Text("application/bcf-claim+cbor".to_string()),
    )]))
}

fn claim_bytes(signers: &[&Signer25519], prev: &[[u8; 32]], nonce: u8, claim_type: &str) -> Vec<u8> {
    let mut entries: Vec<(Vec<u8>, Value)> = signers.iter().map(|s| (encode(&s.entry()), s.entry())).collect();
    entries.sort_by(|a, b| a.0.cmp(&b.0));
    let claim = Value::Mapping(vec![
        (Value::Int(1), Value::Text("BCF/1".to_string())),
        (Value::Int(2), Value::Text(claim_type.to_string())),
        (Value::Int(3), Value::Bytes(vec![nonce; 16])),
        (Value::Int(4), Value::Bytes(sha256(b"payload").to_vec())),
        (Value::Int(5), Value::Array(entries.into_iter().map(|e| e.1).collect())),
        (Value::Int(6), Value::Array(prev.iter().map(|p| Value::Bytes(p.to_vec())).collect())),
    ]);
    encode(&claim)
}

fn sign_protected(s: &Signer25519) -> Vec<u8> {
    encode(&Value::Mapping(vec![
        (Value::Int(1), Value::Int(-8)),
        (Value::Int(4), Value::Bytes(sha256(&s.pubkey()).to_vec())),
        (Value::Int(15), Value::Mapping(vec![(Value::Int(6), Value::Int(1_700_000_000))])),
    ]))
}

fn envelope(signers: &[&Signer25519], claim: &[u8]) -> Vec<u8> {
    let bp = body_protected();
    let sigs: Vec<Value> = signers
        .iter()
        .map(|s| {
            let sp = sign_protected(s);
            let to_sign = encode(&Value::Array(vec![
                Value::Text("Signature".to_string()),
                Value::Bytes(bp.clone()),
                Value::Bytes(sp.clone()),
                Value::Bytes(Vec::new()),
                Value::Bytes(claim.to_vec()),
            ]));
            let sig = s.key.sign(&to_sign).to_bytes().to_vec();
            Value::Array(vec![Value::Bytes(sp), Value::Mapping(vec![]), Value::Bytes(sig)])
        })
        .collect();
    encode(&Value::Tag(
        98,
        Box::new(Value::Array(vec![
            Value::Bytes(bp),
            Value::Mapping(vec![]),
            Value::Bytes(claim.to_vec()),
            Value::Array(sigs),
        ])),
    ))
}

/// A signed artifact and its claim hash.
fn artifact(signers: &[&Signer25519], prev: &[[u8; 32]], nonce: u8) -> (Vec<u8>, [u8; 32]) {
    let claim = claim_bytes(signers, prev, nonce, "bcf:step/1");
    (envelope(signers, &claim), sha256(&claim))
}

#[test]
fn valid_artifact_verifies_with_claim_hash() {
    let a = Signer25519::new("alice", 1);
    let b = Signer25519::new("bob", 2);
    let claim = claim_bytes(&[&a, &b], &[], 7, "bcf:terms/1");
    let env = envelope(&[&a, &b], &claim);
    let v = verify_bcf(&env, "BCF/1", Some(b"payload")).unwrap();
    assert_eq!(v.claim_hash, sha256(&claim));
    assert_eq!(v.claim.domain, "BCF/1");
    assert_eq!(v.claim.claim_type, "bcf:terms/1");
    assert_eq!(v.claim.nonce, [7u8; 16]);
    assert_eq!(v.claim.parties.len(), 2);
    assert!(v.claim.parties.iter().all(|p| p.alg == Alg::Eddsa));
    assert!(v.claim.prev.is_empty());
    assert_eq!(v.claim.predicate, None);
}

#[test]
fn payload_is_optional_evidence() {
    let a = Signer25519::new("alice", 1);
    let b = Signer25519::new("bob", 2);
    let (env, h) = artifact(&[&a, &b], &[], 5);
    let without = verify_bcf(&env, "BCF/1", None).unwrap();
    let with = verify_bcf(&env, "BCF/1", Some(b"payload")).unwrap();
    assert_eq!(without, with);
    assert_eq!(with.claim_hash, h);
    assert_eq!(verify_bcf(&env, "BCF/1", Some(b"")).unwrap_err(), Error::PayloadHash);
}

#[test]
fn signature_order_does_not_matter() {
    let a = Signer25519::new("alice", 1);
    let b = Signer25519::new("bob", 2);
    let c = Signer25519::new("carol", 3);
    let claim = claim_bytes(&[&a, &b, &c], &[], 3, "bcf:terms/1");
    let abc = envelope(&[&a, &b, &c], &claim);
    let cab = envelope(&[&c, &a, &b], &claim);
    assert_ne!(abc, cab);
    assert_eq!(verify_bcf(&abc, "BCF/1", None), verify_bcf(&cab, "BCF/1", None));
    assert!(verify_bcf(&cab, "BCF/1", None).is_ok());
    // Missing a signer fails alike whatever the order.
    let ca = envelope(&[&c, &a], &claim);
    let ac = envelope(&[&a, &c], &claim);
    assert_eq!(verify_bcf(&ca, "BCF/1", None).unwrap_err(), Error::SigMissing);
    assert_eq!(verify_bcf(&ac, "BCF/1", None).unwrap_err(), Error::SigMissing);
}

#[test]
fn wrong_domain_is_e_domain() {
    let a = Signer25519::new("alice", 1);
    let b = Signer25519::new("bob", 2);
    let (env, _) = artifact(&[&a, &b], &[], 1);
    assert_eq!(verify_bcf(&env, "BCF/2", None).unwrap_err(), Error::Domain);
}

#[test]
fn wrong_payload_is_e_payload_hash() {
    let a = Signer25519::new("alice", 1);
    let b = Signer25519::new("bob", 2);
    let (env, _) = artifact(&[&a, &b], &[], 1);
    assert_eq!(verify_bcf(&env, "BCF/1", Some(b"other")).unwrap_err(), Error::PayloadHash);
}

#[test]
fn missing_signature_is_e_sig_missing() {
    let a = Signer25519::new("alice", 1);
    let b = Signer25519::new("bob", 2);
    let claim = claim_bytes(&[&a, &b], &[], 1, "bcf:step/1");
    let env = envelope(&[&a], &claim);
    assert_eq!(verify_bcf(&env, "BCF/1", None).unwrap_err(), Error::SigMissing);
}

#[test]
fn outside_signer_is_e_sig_extra() {
    let a = Signer25519::new("alice", 1);
    let b = Signer25519::new("bob", 2);
    let c = Signer25519::new("carol", 3);
    let claim = claim_bytes(&[&a, &b], &[], 1, "bcf:step/1");
    let env = envelope(&[&a, &b, &c], &claim);
    assert_eq!(verify_bcf(&env, "BCF/1", None).unwrap_err(), Error::SigExtra);
}

#[test]
fn single_party_is_e_party() {
    let a = Signer25519::new("alice", 1);
    let claim = claim_bytes(&[&a], &[], 1, "bcf:step/1");
    let env = envelope(&[&a], &claim);
    assert_eq!(verify_bcf(&env, "BCF/1", None).unwrap_err(), Error::Party);
}

#[test]
fn bad_claim_type_is_e_structure() {
    let a = Signer25519::new("alice", 1);
    let b = Signer25519::new("bob", 2);
    let claim = claim_bytes(&[&a, &b], &[], 1, "BCF:Step/1");
    let env = envelope(&[&a, &b], &claim);
    assert_eq!(verify_bcf(&env, "BCF/1", None).unwrap_err(), Error::Structure);
}

#[test]
fn tampered_signature_is_e_sig_invalid() {
    let a = Signer25519::new("alice", 1);
    let b = Signer25519::new("bob", 2);
    let (mut env, _) = artifact(&[&a, &b], &[], 1);
    let last = env.len() - 1;
    env[last] ^= 0x01;
    assert_eq!(verify_bcf(&env, "BCF/1", None).unwrap_err(), Error::SigInvalid);
}

#[test]
fn not_cbor_is_e_decode() {
    assert_eq!(verify_bcf(&[0xff], "BCF/1", None).unwrap_err(), Error::Decode);
}

#[test]
fn linear_chain_verifies() {
    let a = Signer25519::new("alice", 1);
    let b = Signer25519::new("bob", 2);
    let (g, gh) = artifact(&[&a, &b], &[], 1);
    let (s1, h1) = artifact(&[&a, &b], &[gh], 2);
    let (s2, _) = artifact(&[&a, &b], &[h1], 3);
    assert_eq!(verify_chain(&[g.clone(), s1.clone(), s2.clone()], &gh, "BCF/1", &[]), Ok(()));
    // Input order does not matter for a valid chain.
    assert_eq!(verify_chain(&[s2, g, s1], &gh, "BCF/1", &[]), Ok(()));
}

#[test]
fn chain_without_genesis_is_e_chain_root() {
    let a = Signer25519::new("alice", 1);
    let b = Signer25519::new("bob", 2);
    let (_g, gh) = artifact(&[&a, &b], &[], 1);
    let (s1, h1) = artifact(&[&a, &b], &[gh], 2);
    assert_eq!(verify_chain(&[s1.clone()], &gh, "BCF/1", &[]), Err(Error::ChainRoot));
    // chain_id naming a non-genesis artifact is refused too.
    assert_eq!(verify_chain(&[s1], &h1, "BCF/1", &[]), Err(Error::ChainRoot));
}

#[test]
fn duplicate_genesis_is_e_chain_root() {
    let a = Signer25519::new("alice", 1);
    let b = Signer25519::new("bob", 2);
    let (g, gh) = artifact(&[&a, &b], &[], 1);
    assert_eq!(verify_chain(&[g.clone(), g], &gh, "BCF/1", &[]), Err(Error::ChainRoot));
}

#[test]
fn unrelated_artifact_is_e_chain_unreachable() {
    let a = Signer25519::new("alice", 1);
    let b = Signer25519::new("bob", 2);
    let (g, gh) = artifact(&[&a, &b], &[], 1);
    let (other, _) = artifact(&[&a, &b], &[], 9);
    assert_eq!(verify_chain(&[g, other], &gh, "BCF/1", &[]), Err(Error::ChainUnreachable));
}

#[test]
fn imported_artifact_is_accepted() {
    let a = Signer25519::new("alice", 1);
    let b = Signer25519::new("bob", 2);
    let c = Signer25519::new("carol", 3);
    // A foreign artifact with its own (absent) history, referenced by a member.
    let (foreign, fh) = artifact(&[&b, &c], &[[0x55; 32]], 4);
    let (g, gh) = artifact(&[&a, &b], &[], 1);
    let (s1, _) = artifact(&[&a, &b], &[gh, fh], 2);
    assert_eq!(verify_chain(&[g, s1, foreign], &gh, "BCF/1", &[]), Ok(()));
}

#[test]
fn missing_predecessor_is_e_chain_gap() {
    let a = Signer25519::new("alice", 1);
    let b = Signer25519::new("bob", 2);
    let (g, gh) = artifact(&[&a, &b], &[], 1);
    let withheld = [0x33u8; 32];
    let (s1, _) = artifact(&[&a, &b], &[gh, withheld], 2);
    let inputs = vec![g, s1];
    assert_eq!(verify_chain(&inputs, &gh, "BCF/1", &[]), Err(Error::ChainGap));
    // Accepting the hash as an external reference closes the gap.
    assert_eq!(verify_chain(&inputs, &gh, "BCF/1", &[withheld]), Ok(()));
}

#[test]
fn repeated_predecessor_is_e_chain_structure() {
    let a = Signer25519::new("alice", 1);
    let b = Signer25519::new("bob", 2);
    let (g, gh) = artifact(&[&a, &b], &[], 1);
    let (s1, _) = artifact(&[&a, &b], &[gh, gh], 2);
    assert_eq!(verify_chain(&[g, s1], &gh, "BCF/1", &[]), Err(Error::ChainStructure));
}

#[test]
fn two_successors_sharing_a_signer_is_e_equivocation() {
    let a = Signer25519::new("alice", 1);
    let b = Signer25519::new("bob", 2);
    let c = Signer25519::new("carol", 3);
    let (g, gh) = artifact(&[&a, &b], &[], 1);
    let (x, _) = artifact(&[&a, &b], &[gh], 2);
    let (y, _) = artifact(&[&a, &c], &[gh], 3);
    assert_eq!(verify_chain(&[g, x.clone(), y.clone()], &gh, "BCF/1", &[]), Err(Error::Equivocation));
    // The evidence stands on its own: both claims verify, are distinct, and
    // share a predecessor and a signer.
    let vx = verify_bcf(&x, "BCF/1", None).unwrap();
    let vy = verify_bcf(&y, "BCF/1", None).unwrap();
    assert_ne!(vx.claim_hash, vy.claim_hash);
    assert_eq!(vx.claim.prev, vy.claim.prev);
    assert!(vx.claim.parties.iter().any(|p| vy.claim.parties.iter().any(|q| q.pubkey == p.pubkey)));
}

#[test]
fn same_claim_twice_is_not_equivocation() {
    let a = Signer25519::new("alice", 1);
    let b = Signer25519::new("bob", 2);
    let (g, gh) = artifact(&[&a, &b], &[], 1);
    let (x, _) = artifact(&[&a, &b], &[gh], 2);
    assert_eq!(verify_chain(&[g, x.clone(), x], &gh, "BCF/1", &[]), Ok(()));
}

#[test]
fn invalid_member_fails_chain_with_its_error() {
    let a = Signer25519::new("alice", 1);
    let b = Signer25519::new("bob", 2);
    let (g, gh) = artifact(&[&a, &b], &[], 1);
    assert_eq!(verify_chain(&[g, vec![0xff]], &gh, "BCF/1", &[]), Err(Error::Decode));
}

#[test]
fn complete_chain_has_no_gaps() {
    let a = Signer25519::new("alice", 1);
    let b = Signer25519::new("bob", 2);
    let (g, gh) = artifact(&[&a, &b], &[], 1);
    let (s1, h1) = artifact(&[&a, &b], &[gh], 2);
    let (s2, _) = artifact(&[&a, &b], &[h1], 3);
    assert!(find_gaps(&[g, s1, s2], "BCF/1", &[]).unwrap().is_empty());
}

#[test]
fn withheld_predecessors_are_reported_sorted_and_closed_by_external_refs() {
    let a = Signer25519::new("alice", 1);
    let b = Signer25519::new("bob", 2);
    let (g, gh) = artifact(&[&a, &b], &[], 1);
    let high = [0x90u8; 32];
    let low = [0x10u8; 32];
    let (s1, _) = artifact(&[&a, &b], &[gh, high, low], 2);
    let (s2, _) = artifact(&[&a, &b], &[high], 3);
    let held = vec![g, s1, s2];
    let gaps = find_gaps(&held, "BCF/1", &[]).unwrap();
    assert_eq!(gaps, vec![low, high]);
    assert_eq!(find_gaps(&held, "BCF/1", &[low]).unwrap(), vec![high]);
    assert!(find_gaps(&held, "BCF/1", &gaps).unwrap().is_empty());
}

#[test]
fn gaps_depend_on_the_held_set_only() {
    let a = Signer25519::new("alice", 1);
    let b = Signer25519::new("bob", 2);
    let (g, gh) = artifact(&[&a, &b], &[], 1);
    let (s1, _) = artifact(&[&a, &b], &[gh, [0x44; 32]], 2);
    let one = find_gaps(&[g.clone(), s1.clone()], "BCF/1", &[]).unwrap();
    let other = find_gaps(&[s1.clone(), g, s1], "BCF/1", &[]).unwrap();
    assert_eq!(one, vec![[0x44u8; 32]]);
    assert_eq!(one, other);
}

#[test]
fn gap_detection_propagates_artifact_errors() {
    assert_eq!(find_gaps(&[vec![0xff]], "BCF/1", &[]), Err(Error::Decode));
}

#[test]
fn claim_not_deterministic_cbor_is_e_structure_or_e_noncanonical() {
    let a = Signer25519::new("alice", 1);
    let b = Signer25519::new("bob", 2);
    let claim = claim_bytes(&[&a, &b], &[], 7, "bcf:terms/1");
    // A trailing byte after the claim map.
    let mut trailing = claim.clone();
    trailing.push(0x00);
    assert_eq!(verify_bcf(&envelope(&[&a, &b], &trailing), "BCF/1", None).unwrap_err(), Error::Structure);
    assert_eq!(verify_bcf(&envelope(&[&a, &b], &[0x00, 0x00]), "BCF/1", None).unwrap_err(), Error::Structure);
    // Truncated.
    assert_eq!(verify_bcf(&envelope(&[&a, &b], &claim[..10]), "BCF/1", None).unwrap_err(), Error::Structure);
    // The first key written in a longer form than needed.
    let mut long_key = vec![claim[0], 0x18, 0x01];
    long_key.extend_from_slice(&claim[2..]);
    assert_eq!(verify_bcf(&envelope(&[&a, &b], &long_key), "BCF/1", None).unwrap_err(), Error::Noncanonical);
    assert_eq!(verify_bcf(&envelope(&[&a, &b], &[0x18, 0x05]), "BCF/1", None).unwrap_err(), Error::Noncanonical);
}

#[test]
fn more_external_refs_never_reject_a_chain() {
    let a = Signer25519::new("alice", 1);
    let b = Signer25519::new("bob", 2);
    let (g, gh) = artifact(&[&a, &b], &[], 1);
    let withheld = [0x33u8; 32];
    let (s1, h1) = artifact(&[&a, &b], &[gh, withheld], 2);
    let (s2, _) = artifact(&[&a, &b], &[h1], 3);
    let inputs = vec![g.clone(), s1.clone(), s2.clone()];
    assert_eq!(verify_chain(&inputs, &gh, "BCF/1", &[withheld]), Ok(()));
    // A superset of references, in another order, with the inputs reordered.
    assert_eq!(verify_chain(&[s2, g, s1], &gh, "BCF/1", &[[0x01; 32], withheld, gh]), Ok(()));
}

#[test]
fn more_external_refs_remove_exactly_those_gaps() {
    let a = Signer25519::new("alice", 1);
    let b = Signer25519::new("bob", 2);
    let (g, gh) = artifact(&[&a, &b], &[], 1);
    let (x, y, z) = ([0x10u8; 32], [0x20u8; 32], [0x30u8; 32]);
    let (s1, _) = artifact(&[&a, &b], &[gh, x, y, z], 2);
    let held = vec![g, s1];
    assert_eq!(find_gaps(&held, "BCF/1", &[y]).unwrap(), vec![x, z]);
    assert_eq!(find_gaps(&held, "BCF/1", &[z, [0x77; 32], y]).unwrap(), vec![x]);
}
