use sha2::{Digest, Sha256};
use bcf::cbor::{encode, Value};
use bcf::cose1;
use bcf::head::{detect_head_fork, verify_head, ForkVerdict, HEAD_DOMAIN};
use bcf::log::{detect_log_equivocation, verify_checkpoint, CKPT_DOMAIN, COSIG_DOMAIN};
use bcf::merkle::{merkle_root, sorted_dedup};
use bcf::receipt::{verify_receipt, RECEIPT_DOMAIN};
use bcf::sig::Alg;
use bcf::Error;
use ed25519_dalek::{Signer, SigningKey};

fn sha256(data: &[u8]) -> [u8; 32] {
    Sha256::digest(data).into()
}

fn node(l: &[u8; 32], r: &[u8; 32]) -> [u8; 32] {
    let mut buf = vec![0x01];
    buf.extend_from_slice(l);
    buf.extend_from_slice(r);
    sha256(&buf)
}

fn leaf(h: &[u8; 32]) -> [u8; 32] {
    let mut buf = vec![0x00];
    buf.extend_from_slice(h);
    sha256(&buf)
}

/// A signing key of either profile algorithm.
enum Key {
    Ed(SigningKey),
    K(k256::ecdsa::SigningKey),
}

impl Key {
    fn ed(seed: u8) -> Key {
        Key::Ed(SigningKey::from_bytes(&[seed; 32]))
    }

    fn k(seed: u8) -> Key {
        Key::K(k256::ecdsa::SigningKey::from_slice(&[seed; 32]).unwrap())
    }

    fn pubkey(&self) -> Vec<u8> {
        match self {
            Key::Ed(k) => k.verifying_key().to_bytes().to_vec(),
            Key::K(k) => k.verifying_key().to_encoded_point(true).as_bytes().to_vec(),
        }
    }

    fn alg(&self) -> i128 {
        match self {
            Key::Ed(_) => -8,
            Key::K(_) => -47,
        }
    }

    fn sign(&self, msg: &[u8]) -> Vec<u8> {
        match self {
            Key::Ed(k) => k.sign(msg).to_bytes().to_vec(),
            Key::K(k) => {
                let sig: k256::ecdsa::Signature = k256::ecdsa::signature::Signer::sign(k, msg);
                sig.to_bytes().to_vec()
            }
        }
    }

    fn entry(&self, id: &str) -> Value {
        Value::Mapping(vec![
            (Value::Int(1), Value::Text(id.to_string())),
            (Value::Int(2), Value::Bytes(self.pubkey())),
            (Value::Int(3), Value::Int(self.alg())),
        ])
    }

    fn protected(&self) -> Vec<u8> {
        encode(&Value::Mapping(vec![
            (Value::Int(1), Value::Int(self.alg())),
            (Value::Int(4), Value::Bytes(sha256(&self.pubkey()).to_vec())),
        ]))
    }
}

fn sig1_structure(protected: &[u8], payload: &[u8]) -> Vec<u8> {
    encode(&Value::Array(vec![
        Value::Text("Signature1".to_string()),
        Value::Bytes(protected.to_vec()),
        Value::Bytes(Vec::new()),
        Value::Bytes(payload.to_vec()),
    ]))
}

fn assemble(protected: Vec<u8>, payload: Vec<u8>, sig: Vec<u8>) -> Vec<u8> {
    encode(&Value::Tag(
        18,
        Box::new(Value::Array(vec![
            Value::Bytes(protected),
            Value::Mapping(vec![]),
            Value::Bytes(payload),
            Value::Bytes(sig),
        ])),
    ))
}

/// A COSE_Sign1 over `body` by `key`.
fn sign1(key: &Key, body: &Value) -> Vec<u8> {
    let protected = key.protected();
    let payload = encode(body);
    let sig = key.sign(&sig1_structure(&protected, &payload));
    assemble(protected, payload, sig)
}

fn receipt_body(domain: &str, hash: [u8; 32], key: &Key, at: i128) -> Value {
    Value::Mapping(vec![
        (Value::Int(1), Value::Text(domain.to_string())),
        (Value::Int(2), Value::Bytes(hash.to_vec())),
        (Value::Int(3), key.entry("urn:bcf:recipient")),
        (Value::Int(4), Value::Int(at)),
    ])
}

fn head_body(domain: &str, chain: [u8; 32], root: [u8; 32], count: i128, key: &Key) -> Value {
    Value::Mapping(vec![
        (Value::Int(1), Value::Text(domain.to_string())),
        (Value::Int(2), Value::Bytes(chain.to_vec())),
        (Value::Int(3), Value::Bytes(root.to_vec())),
        (Value::Int(4), Value::Int(count)),
        (Value::Int(5), Value::Int(1_700_000_000)),
        (Value::Int(6), key.entry("urn:bcf:publisher")),
    ])
}

fn ckpt_body(domain: &str, chain: [u8; 32], size: i128, root: [u8; 32], publisher: Value) -> Value {
    Value::Mapping(vec![
        (Value::Int(1), Value::Text(domain.to_string())),
        (Value::Int(2), Value::Bytes(chain.to_vec())),
        (Value::Int(3), Value::Int(size)),
        (Value::Int(4), Value::Bytes(root.to_vec())),
        (Value::Int(5), Value::Int(1_700_000_000)),
        (Value::Int(6), publisher),
    ])
}

fn cosig(witness: &Key, checkpoint: &[u8]) -> Vec<u8> {
    let body = Value::Mapping(vec![
        (Value::Int(1), Value::Text(COSIG_DOMAIN.to_string())),
        (Value::Int(2), Value::Bytes(sha256(checkpoint).to_vec())),
        (Value::Int(3), witness.entry("urn:bcf:witness")),
        (Value::Int(4), Value::Int(1_700_000_001)),
    ]);
    sign1(witness, &body)
}

fn head_for(key: &Key, chain: [u8; 32], members: &[[u8; 32]]) -> Vec<u8> {
    let leaves = sorted_dedup(members);
    let root = merkle_root(&leaves);
    sign1(key, &head_body(HEAD_DOMAIN, chain, root, leaves.len() as i128, key))
}

fn checkpoint(key: &Key, chain: [u8; 32], size: i128, root: [u8; 32]) -> Vec<u8> {
    sign1(key, &ckpt_body(CKPT_DOMAIN, chain, size, root, key.entry("urn:bcf:log")))
}

// --- COSE_Sign1 -----------------------------------------------------------

#[test]
fn sign1_parse_and_signature_check() {
    let key = Key::ed(3);
    let bytes = sign1(&key, &Value::Int(5));
    let s = cose1::parse(&bytes).unwrap();
    assert_eq!(s.payload, encode(&Value::Int(5)));
    assert_eq!(s.protected_bytes, key.protected());
    assert!(cose1::signature_ok(&s, Alg::Eddsa, &key.pubkey()));
    assert!(!cose1::signature_ok(&s, Alg::Eddsa, &Key::ed(4).pubkey()));
    let (alg, kid) = cose1::protected_alg_kid(&s, Error::ReceiptStructure).unwrap();
    assert_eq!(alg, -8);
    assert_eq!(kid, sha256(&key.pubkey()).to_vec());
}

#[test]
fn sign1_shape_errors_are_e_decode() {
    let key = Key::ed(3);
    let protected = key.protected();
    // Wrong tag.
    let wrong_tag = encode(&Value::Tag(
        98,
        Box::new(Value::Array(vec![
            Value::Bytes(protected.clone()),
            Value::Mapping(vec![]),
            Value::Bytes(vec![]),
            Value::Bytes(vec![]),
        ])),
    ));
    assert_eq!(cose1::parse(&wrong_tag).err(), Some(Error::Decode));
    // Non-empty unprotected header.
    let unprotected = encode(&Value::Tag(
        18,
        Box::new(Value::Array(vec![
            Value::Bytes(protected),
            Value::Mapping(vec![(Value::Int(1), Value::Int(1))]),
            Value::Bytes(vec![]),
            Value::Bytes(vec![]),
        ])),
    ));
    assert_eq!(cose1::parse(&unprotected).err(), Some(Error::Decode));
    // Nil payload.
    let nil = encode(&Value::Tag(
        18,
        Box::new(Value::Array(vec![
            Value::Bytes(key.protected()),
            Value::Mapping(vec![]),
            Value::Null,
            Value::Bytes(vec![]),
        ])),
    ));
    assert_eq!(cose1::parse(&nil).err(), Some(Error::Decode));
}

#[test]
fn protected_header_with_extra_key_is_refused() {
    let key = Key::ed(3);
    let protected = encode(&Value::Mapping(vec![
        (Value::Int(1), Value::Int(-8)),
        (Value::Int(4), Value::Bytes(vec![1; 32])),
        (Value::Int(5), Value::Int(0)),
    ]));
    let bytes = assemble(protected, encode(&Value::Int(0)), key.sign(b"x"));
    let s = cose1::parse(&bytes).unwrap();
    assert_eq!(cose1::protected_alg_kid(&s, Error::HeadStructure).err(), Some(Error::HeadStructure));
}

// --- Receipts -------------------------------------------------------------

#[test]
fn ed25519_receipt_verifies() {
    let key = Key::ed(5);
    let bytes = sign1(&key, &receipt_body(RECEIPT_DOMAIN, [0xab; 32], &key, 1_700_000_123));
    let r = verify_receipt(&bytes, RECEIPT_DOMAIN).unwrap();
    assert_eq!(r.artifact_hash, [0xab; 32]);
    assert_eq!(r.received_at, 1_700_000_123);
    assert_eq!(r.recipient.pubkey, key.pubkey());
    assert_eq!(r.recipient.alg, Alg::Eddsa);
    assert_eq!(r.recipient.id, "urn:bcf:recipient");
}

#[test]
fn es256k_receipt_verifies_and_high_s_is_refused() {
    let key = Key::k(9);
    let body = receipt_body(RECEIPT_DOMAIN, [0x01; 32], &key, 42);
    let bytes = sign1(&key, &body);
    let r = verify_receipt(&bytes, RECEIPT_DOMAIN).unwrap();
    assert_eq!(r.recipient.alg, Alg::Es256k);
    assert_eq!(r.received_at, 42);

    // The same signature with s replaced by n - s: valid ECDSA, high-s form.
    let protected = key.protected();
    let payload = encode(&body);
    let mut sig = key.sign(&sig1_structure(&protected, &payload));
    let n: [u8; 32] = [
        0xff, 0xff, 0xff, 0xff, 0xff, 0xff, 0xff, 0xff, 0xff, 0xff, 0xff, 0xff, 0xff, 0xff, 0xff, 0xfe, 0xba, 0xae,
        0xdc, 0xe6, 0xaf, 0x48, 0xa0, 0x3b, 0xbf, 0xd2, 0x5e, 0x8c, 0xd0, 0x36, 0x41, 0x41,
    ];
    let mut borrow = 0i32;
    for i in (0..32).rev() {
        let d = n[i] as i32 - sig[32 + i] as i32 - borrow;
        borrow = if d < 0 { 1 } else { 0 };
        sig[32 + i] = d.rem_euclid(256) as u8;
    }
    let high = assemble(protected, payload, sig);
    assert_eq!(verify_receipt(&high, RECEIPT_DOMAIN).err(), Some(Error::ReceiptSig));
}

#[test]
fn receipt_wrong_domain_is_e_receipt_domain() {
    let key = Key::ed(5);
    let bytes = sign1(&key, &receipt_body("BCF-RECEIPT/2", [0xab; 32], &key, 1));
    assert_eq!(verify_receipt(&bytes, RECEIPT_DOMAIN).err(), Some(Error::ReceiptDomain));
}

#[test]
fn receipt_by_another_key_is_e_receipt_sig() {
    let key = Key::ed(5);
    let other = Key::ed(6);
    let body = receipt_body(RECEIPT_DOMAIN, [0xab; 32], &key, 1);
    // Header and body name `key`, but `other` signed.
    let protected = key.protected();
    let payload = encode(&body);
    let sig = other.sign(&sig1_structure(&protected, &payload));
    let bytes = assemble(protected, payload, sig);
    assert_eq!(verify_receipt(&bytes, RECEIPT_DOMAIN).err(), Some(Error::ReceiptSig));
}

#[test]
fn receipt_header_not_binding_recipient_is_e_receipt_structure() {
    let key = Key::ed(5);
    let other = Key::ed(6);
    let body = receipt_body(RECEIPT_DOMAIN, [0xab; 32], &key, 1);
    // Signed by `other`, whose kid is in the header: the kid does not bind the recipient.
    let bytes = sign1(&other, &body);
    assert_eq!(verify_receipt(&bytes, RECEIPT_DOMAIN).err(), Some(Error::ReceiptStructure));
}

#[test]
fn receipt_body_shape_errors_are_e_receipt_structure() {
    let key = Key::ed(5);
    let extra = Value::Mapping(vec![
        (Value::Int(1), Value::Text(RECEIPT_DOMAIN.to_string())),
        (Value::Int(2), Value::Bytes(vec![0; 32])),
        (Value::Int(3), key.entry("r")),
        (Value::Int(4), Value::Int(1)),
        (Value::Int(5), Value::Int(1)),
    ]);
    assert_eq!(verify_receipt(&sign1(&key, &extra), RECEIPT_DOMAIN).err(), Some(Error::ReceiptStructure));
    let missing = Value::Mapping(vec![
        (Value::Int(1), Value::Text(RECEIPT_DOMAIN.to_string())),
        (Value::Int(2), Value::Bytes(vec![0; 32])),
        (Value::Int(3), key.entry("r")),
    ]);
    assert_eq!(verify_receipt(&sign1(&key, &missing), RECEIPT_DOMAIN).err(), Some(Error::ReceiptStructure));
    let short_hash = Value::Mapping(vec![
        (Value::Int(1), Value::Text(RECEIPT_DOMAIN.to_string())),
        (Value::Int(2), Value::Bytes(vec![0; 31])),
        (Value::Int(3), key.entry("r")),
        (Value::Int(4), Value::Int(1)),
    ]);
    assert_eq!(verify_receipt(&sign1(&key, &short_hash), RECEIPT_DOMAIN).err(), Some(Error::ReceiptStructure));
    // A malformed recipient entry.
    let bad_recipient = Value::Mapping(vec![
        (Value::Int(1), Value::Text(RECEIPT_DOMAIN.to_string())),
        (Value::Int(2), Value::Bytes(vec![0; 32])),
        (Value::Int(3), Value::Int(0)),
        (Value::Int(4), Value::Int(1)),
    ]);
    assert_eq!(verify_receipt(&sign1(&key, &bad_recipient), RECEIPT_DOMAIN).err(), Some(Error::ReceiptStructure));
}

#[test]
fn receipt_is_never_an_artifact() {
    let key = Key::ed(5);
    let bytes = sign1(&key, &receipt_body(RECEIPT_DOMAIN, [0xab; 32], &key, 1));
    assert!(verify_receipt(&bytes, RECEIPT_DOMAIN).is_ok());
    assert_eq!(bcf::verify_bcf(&bytes, "BCF/1", None).err(), Some(Error::Decode));
    assert_eq!(bcf::verify_chain(&[bytes], &[0xab; 32], "BCF/1", &[]), Err(Error::Decode));
}

#[test]
fn signed_message_kinds_are_not_confused() {
    let key = Key::ed(5);
    let receipt = sign1(&key, &receipt_body(RECEIPT_DOMAIN, [0xab; 32], &key, 1));
    assert_eq!(verify_head(&receipt, HEAD_DOMAIN).err(), Some(Error::HeadStructure));
    assert_eq!(verify_checkpoint(&receipt, CKPT_DOMAIN, &[], &[], 0).err(), Some(Error::CkptStructure));
    let head = head_for(&key, [0xc0; 32], &[[1u8; 32]]);
    assert_eq!(verify_checkpoint(&head, CKPT_DOMAIN, &[], &[], 0).err(), Some(Error::CkptStructure));
    // A receipt offered as a witness co-signature does not count.
    let publisher = Key::ed(6);
    let ckpt = checkpoint(&publisher, [0xd0; 32], 1, [0; 32]);
    let witness_receipt = sign1(&key, &receipt_body(RECEIPT_DOMAIN, sha256(&ckpt), &key, 1));
    assert_eq!(
        verify_checkpoint(&ckpt, CKPT_DOMAIN, &[witness_receipt], &[key.pubkey()], 1).err(),
        Some(Error::CkptWitness)
    );
}

#[test]
fn receipt_not_cbor_is_e_decode() {
    assert_eq!(verify_receipt(&[0x18], RECEIPT_DOMAIN).err(), Some(Error::Decode));
}

// --- Chain heads ------------------------------------------------------------

#[test]
fn head_verifies_and_binds_count() {
    let key = Key::ed(7);
    let members = [[3u8; 32], [1u8; 32], [2u8; 32], [1u8; 32]];
    let bytes = head_for(&key, [0xc0; 32], &members);
    let h = verify_head(&bytes, HEAD_DOMAIN).unwrap();
    assert_eq!(h.count, 3);
    assert_eq!(h.chain_id, [0xc0; 32]);
    let expected_root = node(&node(&leaf(&[1; 32]), &leaf(&[2; 32])), &leaf(&[3; 32]));
    assert_eq!(h.root, expected_root);
    assert_eq!(h.publisher.pubkey, key.pubkey());
}

#[test]
fn head_with_negative_count_is_e_head_structure() {
    let key = Key::ed(7);
    let bytes = sign1(&key, &head_body(HEAD_DOMAIN, [0; 32], [0; 32], -1, &key));
    assert_eq!(verify_head(&bytes, HEAD_DOMAIN).err(), Some(Error::HeadStructure));
    let max = sign1(&key, &head_body(HEAD_DOMAIN, [0; 32], [0; 32], u64::MAX as i128, &key));
    assert_eq!(verify_head(&max, HEAD_DOMAIN).unwrap().count, u64::MAX);
}

#[test]
fn head_errors() {
    let key = Key::ed(7);
    let other = Key::ed(8);
    let wrong_domain = sign1(&key, &head_body("BCF-HEAD/9", [0; 32], [0; 32], 0, &key));
    assert_eq!(verify_head(&wrong_domain, HEAD_DOMAIN).err(), Some(Error::HeadDomain));
    let body = head_body(HEAD_DOMAIN, [0; 32], [0; 32], 0, &key);
    let protected = key.protected();
    let payload = encode(&body);
    let forged = assemble(protected.clone(), payload.clone(), other.sign(&sig1_structure(&protected, &payload)));
    assert_eq!(verify_head(&forged, HEAD_DOMAIN).err(), Some(Error::HeadSig));
}

#[test]
fn disjoint_member_sets_are_a_fork() {
    let key = Key::ed(7);
    let chain = [0xc0; 32];
    let ma = [[1u8; 32], [2u8; 32]];
    let mb = [[1u8; 32], [3u8; 32]];
    let ha = head_for(&key, chain, &ma);
    let hb = head_for(&key, chain, &mb);
    assert_eq!(detect_head_fork(&ha, &ma, &hb, &mb, HEAD_DOMAIN), Ok(ForkVerdict::Fork));
    // The verdict does not depend on the presentation order.
    assert_eq!(detect_head_fork(&hb, &mb, &ha, &ma, HEAD_DOMAIN), Ok(ForkVerdict::Fork));
}

#[test]
fn honest_growth_and_equal_heads_are_not_forks() {
    let key = Key::ed(7);
    let chain = [0xc0; 32];
    let ma = [[1u8; 32], [2u8; 32]];
    let mb = [[2u8; 32], [3u8; 32], [1u8; 32]];
    let ha = head_for(&key, chain, &ma);
    let hb = head_for(&key, chain, &mb);
    assert_eq!(detect_head_fork(&ha, &ma, &hb, &mb, HEAD_DOMAIN), Ok(ForkVerdict::NoFork));
    assert_eq!(detect_head_fork(&hb, &mb, &ha, &ma, HEAD_DOMAIN), Ok(ForkVerdict::NoFork));
    // A head never forks with itself, even with its members in another order.
    let ma_shuffled = [[2u8; 32], [1u8; 32], [2u8; 32]];
    assert_eq!(detect_head_fork(&ha, &ma, &ha, &ma_shuffled, HEAD_DOMAIN), Ok(ForkVerdict::NoFork));
}

#[test]
fn heads_of_other_chains_or_publishers_are_not_comparable() {
    let key = Key::ed(7);
    let other = Key::ed(8);
    let ma = [[1u8; 32]];
    let mb = [[2u8; 32]];
    let ha = head_for(&key, [0xc0; 32], &ma);
    let hb = head_for(&key, [0xc1; 32], &mb);
    let hc = head_for(&other, [0xc0; 32], &mb);
    assert_eq!(detect_head_fork(&ha, &ma, &hb, &mb, HEAD_DOMAIN), Ok(ForkVerdict::NoFork));
    assert_eq!(detect_head_fork(&ha, &ma, &hc, &mb, HEAD_DOMAIN), Ok(ForkVerdict::NoFork));
}

#[test]
fn member_list_not_matching_its_root_is_e_head_structure() {
    let key = Key::ed(7);
    let chain = [0xc0; 32];
    let ma = [[1u8; 32], [2u8; 32]];
    let mb = [[1u8; 32], [3u8; 32]];
    let ha = head_for(&key, chain, &ma);
    let hb = head_for(&key, chain, &mb);
    let lie = [[1u8; 32], [2u8; 32], [3u8; 32]];
    assert_eq!(detect_head_fork(&ha, &ma, &hb, &lie, HEAD_DOMAIN), Err(Error::HeadStructure));
}

#[test]
fn fork_check_needs_verified_heads() {
    let key = Key::ed(7);
    let ma = [[1u8; 32]];
    let ha = head_for(&key, [0xc0; 32], &ma);
    assert_eq!(detect_head_fork(&ha, &ma, &[0xff], &ma, HEAD_DOMAIN), Err(Error::Decode));
}

// --- Checkpoints and the witnessed log --------------------------------------

#[test]
fn checkpoint_without_witness_policy_verifies() {
    let key = Key::ed(11);
    let bytes = checkpoint(&key, [0xd0; 32], 5, [0x77; 32]);
    let c = verify_checkpoint(&bytes, CKPT_DOMAIN, &[], &[], 0).unwrap();
    assert_eq!(c.tree_size, 5);
    assert_eq!(c.log_root, [0x77; 32]);
    assert_eq!(c.chain_id, [0xd0; 32]);
    assert_eq!(c.publisher.pubkey, key.pubkey());
    assert_eq!(verify_checkpoint(&bytes, CKPT_DOMAIN, &[], &[], 1).err(), Some(Error::CkptWitness));
}

#[test]
fn distinct_trusted_witnesses_count() {
    let key = Key::ed(11);
    let w1 = Key::ed(12);
    let w2 = Key::k(13);
    let outsider = Key::ed(14);
    let bytes = checkpoint(&key, [0xd0; 32], 5, [0x77; 32]);
    let set = vec![w1.pubkey(), w2.pubkey(), key.pubkey()];
    let c1 = cosig(&w1, &bytes);
    let c2 = cosig(&w2, &bytes);
    assert!(verify_checkpoint(&bytes, CKPT_DOMAIN, &[c1.clone(), c2.clone()], &set, 2).is_ok());
    // One witness twice is still one witness.
    assert_eq!(
        verify_checkpoint(&bytes, CKPT_DOMAIN, &[c1.clone(), c1.clone()], &set, 2).err(),
        Some(Error::CkptWitness)
    );
    // The publisher cannot witness itself, even when listed in the set.
    let own = cosig(&key, &bytes);
    assert_eq!(
        verify_checkpoint(&bytes, CKPT_DOMAIN, &[c1.clone(), own], &set, 2).err(),
        Some(Error::CkptWitness)
    );
    // A witness outside the set does not count.
    let out = cosig(&outsider, &bytes);
    assert_eq!(
        verify_checkpoint(&bytes, CKPT_DOMAIN, &[c1.clone(), out], &set, 2).err(),
        Some(Error::CkptWitness)
    );
    // A co-signature of another checkpoint cannot be transplanted.
    let other = checkpoint(&key, [0xd0; 32], 6, [0x78; 32]);
    let moved = cosig(&w2, &other);
    assert_eq!(
        verify_checkpoint(&bytes, CKPT_DOMAIN, &[c1.clone(), moved], &set, 2).err(),
        Some(Error::CkptWitness)
    );
    // Garbage co-signatures are skipped, not errors.
    assert!(verify_checkpoint(&bytes, CKPT_DOMAIN, &[vec![0xff], c2, c1], &set, 2).is_ok());
}

#[test]
fn checkpoint_check_order() {
    let key = Key::ed(11);
    // Wrong domain alone is E_CKPT_DOMAIN.
    let wrong = sign1(&key, &ckpt_body("BCF-CKPT/9", [0; 32], 1, [0; 32], key.entry("p")));
    assert_eq!(verify_checkpoint(&wrong, CKPT_DOMAIN, &[], &[], 0).err(), Some(Error::CkptDomain));
    // Wrong domain and a malformed publisher fail as E_CKPT_STRUCTURE.
    let both = sign1(&key, &ckpt_body("BCF-CKPT/9", [0; 32], 1, [0; 32], Value::Int(0)));
    assert_eq!(verify_checkpoint(&both, CKPT_DOMAIN, &[], &[], 0).err(), Some(Error::CkptStructure));
    // A negative tree size is E_CKPT_STRUCTURE.
    let negative = checkpoint(&key, [0; 32], -3, [0; 32]);
    assert_eq!(verify_checkpoint(&negative, CKPT_DOMAIN, &[], &[], 0).err(), Some(Error::CkptStructure));
    // Signed by another key: E_CKPT_SIG.
    let other = Key::ed(15);
    let body = ckpt_body(CKPT_DOMAIN, [0; 32], 1, [0; 32], key.entry("p"));
    let protected = key.protected();
    let payload = encode(&body);
    let forged = assemble(protected.clone(), payload.clone(), other.sign(&sig1_structure(&protected, &payload)));
    assert_eq!(verify_checkpoint(&forged, CKPT_DOMAIN, &[], &[], 0).err(), Some(Error::CkptSig));
}

#[test]
fn log_equivocation_verdicts() {
    let key = Key::ed(21);
    let chain = [0xe0; 32];
    let l: Vec<[u8; 32]> = (0u8..4).map(|i| leaf(&[i; 32])).collect();
    let n01 = node(&l[0], &l[1]);
    let root2 = n01;
    let root3 = node(&n01, &l[2]);
    let a2 = checkpoint(&key, chain, 2, root2);
    let a3 = checkpoint(&key, chain, 3, root3);
    let fake3 = checkpoint(&key, chain, 3, [0x99; 32]);
    let run = |a: &[u8], b: &[u8], proof: &[[u8; 32]]| {
        detect_log_equivocation(a, &[], b, &[], proof, CKPT_DOMAIN, &[], 0)
    };
    // Honest growth with a valid consistency proof, either order.
    assert_eq!(run(&a2, &a3, &[l[2]]), Ok(ForkVerdict::NoFork));
    assert_eq!(run(&a3, &a2, &[l[2]]), Ok(ForkVerdict::NoFork));
    // Growth with a missing or wrong proof is the fork evidence.
    assert_eq!(run(&a2, &a3, &[]), Ok(ForkVerdict::Fork));
    assert_eq!(run(&a2, &fake3, &[l[2]]), Ok(ForkVerdict::Fork));
    // Same size, different roots.
    assert_eq!(run(&a3, &fake3, &[]), Ok(ForkVerdict::Fork));
    // A checkpoint never equivocates with itself.
    assert_eq!(run(&a3, &a3, &[]), Ok(ForkVerdict::NoFork));
    // Another publisher's log is unrelated.
    let other = checkpoint(&Key::ed(22), chain, 3, [0x99; 32]);
    assert_eq!(run(&a3, &other, &[]), Ok(ForkVerdict::NoFork));
    // An unverifiable checkpoint is an error, not a verdict.
    assert_eq!(run(&a3, &[0xff], &[]), Err(Error::Decode));
    assert_eq!(
        detect_log_equivocation(&a2, &[], &a3, &[], &[l[2]], CKPT_DOMAIN, &[], 1),
        Err(Error::CkptWitness)
    );
}

/// A COSE_Sign1 by `key` over raw payload bytes.
fn sign1_raw(key: &Key, payload: &[u8]) -> Vec<u8> {
    let protected = key.protected();
    let sig = key.sign(&sig1_structure(&protected, payload));
    assemble(protected, payload.to_vec(), sig)
}

#[test]
fn receipt_body_not_deterministic_cbor_is_e_receipt_structure() {
    let key = Key::ed(5);
    // A trailing byte after the body.
    let mut trailing = encode(&receipt_body(RECEIPT_DOMAIN, [0xab; 32], &key, 1));
    trailing.push(0x00);
    assert_eq!(verify_receipt(&sign1_raw(&key, &trailing), RECEIPT_DOMAIN).err(), Some(Error::ReceiptStructure));
    assert_eq!(verify_receipt(&sign1_raw(&key, &[0x00, 0x00]), RECEIPT_DOMAIN).err(), Some(Error::ReceiptStructure));
    // A head that is not the shortest form.
    assert_eq!(verify_receipt(&sign1_raw(&key, &[0x18, 0x05]), RECEIPT_DOMAIN).err(), Some(Error::ReceiptStructure));
    // Truncated, and well-formed but not a map.
    assert_eq!(verify_receipt(&sign1_raw(&key, &[0xa4]), RECEIPT_DOMAIN).err(), Some(Error::ReceiptStructure));
    assert_eq!(verify_receipt(&sign1_raw(&key, &[0x01]), RECEIPT_DOMAIN).err(), Some(Error::ReceiptStructure));
}

#[test]
fn head_body_not_deterministic_cbor_is_e_head_structure() {
    let key = Key::ed(7);
    let mut trailing = encode(&head_body(HEAD_DOMAIN, [0; 32], [0; 32], 0, &key));
    trailing.push(0x00);
    let bad = sign1_raw(&key, &trailing);
    assert_eq!(verify_head(&bad, HEAD_DOMAIN).err(), Some(Error::HeadStructure));
    assert_eq!(verify_head(&sign1_raw(&key, &[0x00, 0x00]), HEAD_DOMAIN).err(), Some(Error::HeadStructure));
    assert_eq!(verify_head(&sign1_raw(&key, &[0x18, 0x05]), HEAD_DOMAIN).err(), Some(Error::HeadStructure));
    // Fork detection reports the head's own error.
    let good = head_for(&key, [0xc0; 32], &[[1u8; 32]]);
    assert_eq!(
        detect_head_fork(&good, &[[1u8; 32]], &bad, &[[1u8; 32]], HEAD_DOMAIN),
        Err(Error::HeadStructure)
    );
}

#[test]
fn checkpoint_body_decode_errors_keep_their_codes() {
    let key = Key::ed(11);
    assert_eq!(verify_checkpoint(&sign1_raw(&key, &[0x00, 0x00]), CKPT_DOMAIN, &[], &[], 0).err(), Some(Error::Decode));
    assert_eq!(
        verify_checkpoint(&sign1_raw(&key, &[0x18, 0x05]), CKPT_DOMAIN, &[], &[], 0).err(),
        Some(Error::Noncanonical)
    );
}

#[test]
fn more_witnessing_keeps_a_checkpoint_verified() {
    let key = Key::ed(11);
    let w1 = Key::ed(12);
    let w2 = Key::k(13);
    let w3 = Key::ed(16);
    let bytes = checkpoint(&key, [0xd0; 32], 5, [0x77; 32]);
    let c1 = cosig(&w1, &bytes);
    let c2 = cosig(&w2, &bytes);
    let c3 = cosig(&w3, &bytes);
    let base = verify_checkpoint(&bytes, CKPT_DOMAIN, &[c1.clone()], &[w1.pubkey()], 1).unwrap();
    // More co-signatures, more trusted witnesses, a lower threshold: same result.
    let more = verify_checkpoint(
        &bytes,
        CKPT_DOMAIN,
        &[c3.clone(), vec![0xff], c1.clone(), c2.clone()],
        &[w2.pubkey(), w1.pubkey(), w3.pubkey()],
        1,
    )
    .unwrap();
    assert_eq!(more, base);
    let lower = verify_checkpoint(&bytes, CKPT_DOMAIN, &[c1.clone()], &[w1.pubkey()], 0).unwrap();
    assert_eq!(lower, base);
    // With the extra witnesses trusted, the higher threshold is met too.
    assert!(verify_checkpoint(&bytes, CKPT_DOMAIN, &[c1, c2, c3], &[w1.pubkey(), w2.pubkey(), w3.pubkey()], 3).is_ok());
}
