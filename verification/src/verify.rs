//! The verification procedure of a single artifact, checks V1–V9 in order,
//! stopping at the first failure. The order is normative: each step may rely
//! on everything before it, and which error a bad input yields is pinned.
use crate::bytes::{eq32, lemma_rearranged_symmetric, rearranged, text_eq};
use crate::cbor::{decode_canonical, decode_canonical_spec, enc, encode, lemma_model_pairs, model, model_pairs, Cbor, Value};
use crate::claim::{self, parties_spec, parties_view, structure_spec, Claim, ClaimModel, Party, PartyModel};
use crate::envelope::{self, body_protected_ok_spec, empty_map_spec, parse_spec, Envelope, EnvelopeModel, SigEntryModel, SignatureEntry, sig_entries_view};
use crate::cbor_laws::law_decode_errors;

use crate::error::Error;
use crate::hash::{sha256, sha256_spec};
use crate::sig::{self, cose_id_spec, verify_spec};
use vstd::prelude::*;

verus! {

/// A verified artifact: the decoded claim and its identity hash.
#[derive(Debug, Clone, PartialEq, Eq)]
pub struct Verified {
    /// The validated claim.
    pub claim: Claim,
    /// `SHA-256(claim_bytes)`: the identity of the agreement.
    pub claim_hash: [u8; 32],
}

/// The content of a verified artifact.
pub ghost struct VerifiedModel {
    pub claim: ClaimModel,
    pub claim_hash: Seq<u8>,
}

impl View for Verified {
    type V = VerifiedModel;

    open spec fn view(&self) -> VerifiedModel {
        VerifiedModel { claim: self.claim@, claim_hash: self.claim_hash@ }
    }
}

// ---------------------------------------------------------------------------
// V6: signatures to parties
// ---------------------------------------------------------------------------

/// The `kid` of a protected-header map: the value of its first key-4 entry,
/// if that is a 32-byte byte string.
pub open spec fn find_kid(pairs: Seq<(Cbor, Cbor)>, i: int) -> Option<Seq<u8>>
    decreases pairs.len() - i,
{
    if i < 0 || i >= pairs.len() {
        None
    } else if pairs[i].0 == Cbor::Int(4) {
        match pairs[i].1 {
            Cbor::Bytes(b) => if b.len() == 32 {
                Some(b)
            } else {
                None
            },
            _ => None,
        }
    } else {
        find_kid(pairs, i + 1)
    }
}

pub open spec fn signature_kid_spec(protected: Cbor) -> Option<Seq<u8>> {
    match protected {
        Cbor::Mapping(pairs) => find_kid(pairs, 0),
        _ => None,
    }
}

/// The first index from `j` at which `kids` holds `kid`.
pub open spec fn first_index(kids: Seq<Seq<u8>>, kid: Seq<u8>, j: int) -> Option<int>
    decreases kids.len() - j,
{
    if j < 0 || j >= kids.len() {
        None
    } else if kids[j] == kid {
        Some(j)
    } else {
        first_index(kids, kid, j + 1)
    }
}

/// Assigning signatures from index `i` to parties by kid.
pub open spec fn match_scan(
    kids: Seq<Seq<u8>>,
    sigs: Seq<SigEntryModel>,
    i: int,
    assign: Seq<Option<int>>,
) -> Result<Seq<Option<int>>, Error>
    decreases sigs.len() - i,
{
    if i < 0 || i >= sigs.len() {
        Ok(assign)
    } else {
        match signature_kid_spec(sigs[i].protected) {
            None => Err(Error::SigExtra),
            Some(kid) => match first_index(kids, kid, 0) {
                None => Err(Error::SigExtra),
                Some(p) => if assign[p] is Some {
                    Err(Error::SigExtra)
                } else {
                    match_scan(kids, sigs, i + 1, assign.update(p, Some(i)))
                },
            },
        }
    }
}

/// The party key ids: `SHA-256(pub)` of each party.
pub open spec fn kids_of(parties: Seq<PartyModel>) -> Seq<Seq<u8>> {
    Seq::new(parties.len(), |j: int| sha256_spec(parties[j].pubkey))
}

/// V6: for each party, the index of its signature. A signature matching no
/// party, or a party matched twice, is `E_SIG_EXTRA`; an unmatched party is
/// `E_SIG_MISSING`.
pub open spec fn match_spec(parties: Seq<PartyModel>, sigs: Seq<SigEntryModel>) -> Result<Seq<int>, Error> {
    match match_scan(kids_of(parties), sigs, 0, Seq::new(parties.len(), |j: int| None::<int>)) {
        Err(e) => Err(e),
        Ok(a) => if exists|j: int| 0 <= j < a.len() && (#[trigger] a[j]) is None {
            Err(Error::SigMissing)
        } else {
            Ok(Seq::new(a.len(), |j: int| a[j]->0))
        },
    }
}

// ---------------------------------------------------------------------------
// V7: signature headers
// ---------------------------------------------------------------------------

/// The protected-header parameters read so far.
pub ghost struct HeaderScan {
    pub alg_id: Option<int>,
    pub has_kid: bool,
    pub has_iat: bool,
}

/// `{6: iat}` with an integer `iat`.
pub open spec fn cwt_ok(c: Cbor) -> bool {
    match c {
        Cbor::Mapping(cwt) => cwt.len() == 1 && cwt[0].0 == Cbor::Int(6) && cwt[0].1 is Int,
        _ => false,
    }
}

/// Reading protected-header entries from index `i`: 1 (alg, integer),
/// 4 (kid, bytes), 15 (CWT claims, exactly `{6: iat}`); others are `E_HEADER`.
pub open spec fn scan_header(pairs: Seq<(Cbor, Cbor)>, i: int, st: HeaderScan) -> Result<
    HeaderScan,
    Error,
>
    decreases pairs.len() - i,
{
    if i < 0 || i >= pairs.len() {
        Ok(st)
    } else {
        let k = pairs[i].0;
        let v = pairs[i].1;
        if k == Cbor::Int(1) {
            match v {
                Cbor::Int(a) => scan_header(pairs, i + 1, HeaderScan { alg_id: Some(a), ..st }),
                _ => Err(Error::Header),
            }
        } else if k == Cbor::Int(4) {
            if v is Bytes {
                scan_header(pairs, i + 1, HeaderScan { has_kid: true, ..st })
            } else {
                Err(Error::Header)
            }
        } else if k == Cbor::Int(15) {
            if cwt_ok(v) {
                scan_header(pairs, i + 1, HeaderScan { has_iat: true, ..st })
            } else {
                Err(Error::Header)
            }
        } else {
            Err(Error::Header)
        }
    }
}

/// V7 for one signature: empty unprotected header; protected header with
/// exactly {1: alg, 4: kid, 15: {6: iat}}; header alg equal to the party's.
pub open spec fn check_headers_spec(entry: SigEntryModel, party: PartyModel) -> Result<(), Error> {
    if !empty_map_spec(entry.unprotected) {
        Err(Error::Header)
    } else {
        match entry.protected {
            Cbor::Mapping(pairs) => if pairs.len() != 3 {
                Err(Error::Header)
            } else {
                match scan_header(pairs, 0, HeaderScan { alg_id: None, has_kid: false, has_iat: false }) {
                    Err(e) => Err(e),
                    Ok(st) => if !st.has_kid || !st.has_iat {
                        Err(Error::Header)
                    } else if st.alg_id != Some(cose_id_spec(party.alg)) {
                        Err(Error::Alg)
                    } else {
                        Ok(())
                    },
                }
            },
            _ => Err(Error::Header),
        }
    }
}

/// V7 over every party in order; the first failure wins.
pub open spec fn headers_all(
    sigs: Seq<SigEntryModel>,
    parties: Seq<PartyModel>,
    sfp: Seq<int>,
    p: int,
) -> Result<(), Error>
    decreases sfp.len() - p,
{
    if p < 0 || p >= sfp.len() {
        Ok(())
    } else {
        match check_headers_spec(sigs[sfp[p]], parties[p]) {
            Err(e) => Err(e),
            Ok(_) => headers_all(sigs, parties, sfp, p + 1),
        }
    }
}

// ---------------------------------------------------------------------------
// V8: signatures
// ---------------------------------------------------------------------------

/// The RFC 9052 `Sig_structure` for context "Signature", with empty
/// external_aad and the claim bytes as payload.
pub open spec fn sig_structure_spec(body_protected: Seq<u8>, sign_protected: Seq<u8>, payload: Seq<u8>) -> Seq<u8> {
    enc(
        Cbor::Array(
            seq![
                Cbor::Text("Signature"@),
                Cbor::Bytes(body_protected),
                Cbor::Bytes(sign_protected),
                Cbor::Bytes(Seq::empty()),
                Cbor::Bytes(payload),
            ],
        ),
    )
}

/// V8: every party's signature verifies over the `Sig_structure`.
pub open spec fn signatures_ok(
    env: EnvelopeModel,
    claim_bytes: Seq<u8>,
    parties: Seq<PartyModel>,
    sfp: Seq<int>,
) -> bool {
    forall|p: int|
        0 <= p < sfp.len() ==> verify_spec(
            parties[p].alg,
            parties[p].pubkey,
            sig_structure_spec(
                env.body_protected_bytes,
                env.signatures[#[trigger] sfp[p]].protected_bytes,
                claim_bytes,
            ),
            env.signatures[sfp[p]].signature,
        )
}

/// What [`verify_bcf`] returns: V1–V9 in order, the first failure's code, or
/// the validated claim with `SHA-256(claim_bytes)`.
pub open spec fn verify_bcf_spec(
    envelope_bytes: Seq<u8>,
    expected_domain: Seq<char>,
    payload: Option<Seq<u8>>,
) -> Result<VerifiedModel, Error> {
    match parse_spec(envelope_bytes) {
        Err(e) => Err(e),  // V1
        Ok(env) => {
            if !body_protected_ok_spec(env.body_protected) {
                Err(Error::Envelope)  // V2
            } else if !empty_map_spec(env.body_unprotected) {
                Err(Error::Envelope)
            } else if env.payload is None {
                Err(Error::Envelope)
            } else {
                let claim_bytes = env.payload->0;
                match decode_canonical_spec(claim_bytes) {
                    // V3: a malformed claim is a structure fault; a
                    // non-deterministic encoding stays E_NONCANONICAL.
                    Err(e) => if e == Error::Decode {
                        Err(Error::Structure)
                    } else {
                        Err(e)
                    },
                    Ok(cv) => match structure_spec(cv) {
                        Err(e) => Err(e),
                        Ok(f) => if f.domain != expected_domain {
                            Err(Error::Domain)  // V4
                        } else {
                            match parties_spec(f.parties_raw) {
                                Err(e) => Err(e),  // V5
                                Ok(ps) => match match_spec(ps, env.signatures) {
                                    Err(e) => Err(e),  // V6
                                    Ok(sfp) => match headers_all(env.signatures, ps, sfp, 0) {
                                        Err(e) => Err(e),  // V7
                                        Ok(_) => if !signatures_ok(env, claim_bytes, ps, sfp) {
                                            Err(Error::SigInvalid)  // V8
                                        } else if payload is Some && sha256_spec(payload->0)
                                            != f.payload_hash {
                                            Err(Error::PayloadHash)  // V9
                                        } else {
                                            Ok(
                                                VerifiedModel {
                                                    claim: ClaimModel {
                                                        domain: f.domain,
                                                        claim_type: f.claim_type,
                                                        nonce: f.nonce,
                                                        payload_hash: f.payload_hash,
                                                        parties: ps,
                                                        prev: f.prev,
                                                        predicate: f.predicate,
                                                    },
                                                    claim_hash: sha256_spec(claim_bytes),
                                                },
                                            )
                                        },
                                    },
                                },
                            }
                        },
                    },
                }
            }
        },
    }
}

pub open spec fn opt_bytes_view(p: Option<&[u8]>) -> Option<Seq<u8>> {
    match p {
        Some(b) => Some(b@),
        None => None,
    }
}

/// Verify a BCF artifact against `expected_domain`, optionally checking that
/// `payload` is the committed payload. Returns the claim and its hash, or the
/// first `E_*` failure in V1–V9 order.
pub fn verify_bcf(envelope_bytes: &[u8], expected_domain: &str, payload: Option<&[u8]>) -> (r:
    Result<Verified, Error>)
    ensures
        r matches Ok(v) ==> verify_bcf_spec(envelope_bytes@, expected_domain@, opt_bytes_view(payload))
            == Ok::<VerifiedModel, Error>(v@),
        r matches Err(e) ==> verify_bcf_spec(envelope_bytes@, expected_domain@, opt_bytes_view(payload))
            == Err::<VerifiedModel, Error>(e),
{
    // V1 — decode the envelope and every nested bstr .cbor protected header.
    let env: Envelope = envelope::parse(envelope_bytes)?;

    // V2 — body protected header, empty unprotected maps, non-nil payload.
    if !envelope::is_body_protected_ok(&env.body_protected) {
        return Err(Error::Envelope);
    }
    if !envelope::is_empty_map(&env.body_unprotected) {
        return Err(Error::Envelope);
    }
    let claim_bytes: &Vec<u8> = match &env.payload {
        Some(bytes) => bytes,
        None => return Err(Error::Envelope),  // detached payload not allowed
    };

    // V3 — claim decodes canonically and has exactly the claim's structure.
    let claim_value = match decode_canonical(claim_bytes.as_slice()) {
        Ok(v) => v,
        Err(Error::Decode) => return Err(Error::Structure),
        Err(e) => return Err(e),
    };
    let fields = claim::structure(&claim_value)?;

    // V4 — domain separator matches the caller's expectation.
    if !text_eq(fields.domain.as_str(), expected_domain) {
        return Err(Error::Domain);
    }

    // V5 — party set well-formed, unique, sorted, at least two.
    let parties: Vec<Party> = claim::parties(fields.parties_raw)?;

    // V6 — signatures correspond one-to-one to parties via kid = SHA-256(pub).
    let sig_for_party = match_signatures(&parties, &env.signatures)?;

    // V7 — every signature's headers conform; alg equals the party's claim
    // alg. V8 — every signature verifies over the Sig_structure. All headers
    // are checked before any signature, so a header fault on one signature
    // outranks a signature fault on another.
    check_all_headers(&env, &parties, &sig_for_party)?;
    verify_all_signatures(&env, claim_bytes.as_slice(), &parties, &sig_for_party)?;

    // V9 — if a payload was supplied, it must hash to claim.payload_hash.
    if let Some(payload) = payload {
        if !eq32(&sha256(payload), &fields.payload_hash) {
            return Err(Error::PayloadHash);
        }
    }
    let claim_hash = sha256(claim_bytes.as_slice());
    Ok(
        Verified {
            claim: Claim {
                domain: fields.domain,
                claim_type: fields.claim_type,
                nonce: fields.nonce,
                payload_hash: fields.payload_hash,
                parties,
                prev: fields.prev,
                predicate: fields.predicate,
            },
            claim_hash,
        },
    )
}

/// V7 for every party in order.
fn check_all_headers(env: &Envelope, parties: &Vec<Party>, sig_for_party: &Vec<usize>) -> (r: Result<
    (),
    Error,
>)
    requires
        sig_for_party@.len() == parties@.len(),
        forall|j: int| 0 <= j < sig_for_party@.len() ==> #[trigger] sig_for_party@[j] < env.signatures@.len(),
    ensures
        r == headers_all(
            sig_entries_view(env.signatures@),
            parties_view(parties@),
            Seq::new(sig_for_party@.len(), |j: int| sig_for_party@[j] as int),
            0,
        ),
{
    let ghost sfp = Seq::new(sig_for_party@.len(), |j: int| sig_for_party@[j] as int);
    let ghost sigs = sig_entries_view(env.signatures@);
    let ghost ps = parties_view(parties@);
    let mut p: usize = 0;
    while p < sig_for_party.len()
        invariant
            sig_for_party@.len() == parties@.len(),
            forall|j: int| 0 <= j < sig_for_party@.len() ==> #[trigger] sig_for_party@[j] < env.signatures@.len(),
            0 <= p <= sig_for_party@.len(),
            sfp == Seq::new(sig_for_party@.len(), |j: int| sig_for_party@[j] as int),
            sigs == sig_entries_view(env.signatures@),
            ps == parties_view(parties@),
            headers_all(sigs, ps, sfp, 0) == headers_all(sigs, ps, sfp, p as int),
        decreases sig_for_party@.len() - p,
    {
        let s = sig_for_party[p];
        let h = check_signature_headers(&env.signatures[s], &parties[p]);
        match h {
            Ok(()) => {},
            Err(e) => {
                return Err(e);
            },
        }
        p += 1;
    }
    Ok(())
}

/// V8 for every party in order.
fn verify_all_signatures(
    env: &Envelope,
    claim_bytes: &[u8],
    parties: &Vec<Party>,
    sig_for_party: &Vec<usize>,
) -> (r: Result<(), Error>)
    requires
        sig_for_party@.len() == parties@.len(),
        forall|j: int| 0 <= j < sig_for_party@.len() ==> #[trigger] sig_for_party@[j] < env.signatures@.len(),
    ensures
        r is Ok <==> signatures_ok(
            env@,
            claim_bytes@,
            parties_view(parties@),
            Seq::new(sig_for_party@.len(), |j: int| sig_for_party@[j] as int),
        ),
        r is Err ==> r == Err::<(), Error>(Error::SigInvalid),
{
    let ghost sfp = Seq::new(sig_for_party@.len(), |j: int| sig_for_party@[j] as int);
    let ghost ps = parties_view(parties@);
    let mut q: usize = 0;
    while q < sig_for_party.len()
        invariant
            sig_for_party@.len() == parties@.len(),
            forall|j: int| 0 <= j < sig_for_party@.len() ==> #[trigger] sig_for_party@[j] < env.signatures@.len(),
            0 <= q <= sig_for_party@.len(),
            sfp == Seq::new(sig_for_party@.len(), |j: int| sig_for_party@[j] as int),
            ps == parties_view(parties@),
            forall|j: int|
                0 <= j < q ==> verify_spec(
                    ps[j].alg,
                    ps[j].pubkey,
                    sig_structure_spec(
                        env@.body_protected_bytes,
                        env@.signatures[#[trigger] sfp[j]].protected_bytes,
                        claim_bytes@,
                    ),
                    env@.signatures[sfp[j]].signature,
                ),
        decreases sig_for_party@.len() - q,
    {
        let s = sig_for_party[q];
        let v = verify_signature(env, claim_bytes, &env.signatures[s], &parties[q]);
        match v {
            Ok(()) => {},
            Err(e) => {
                assert(!verify_spec(
                    ps[q as int].alg,
                    ps[q as int].pubkey,
                    sig_structure_spec(
                        env@.body_protected_bytes,
                        env@.signatures[sfp[q as int]].protected_bytes,
                        claim_bytes@,
                    ),
                    env@.signatures[sfp[q as int]].signature,
                ));
                return Err(e);
            },
        }
        q += 1;
    }
    Ok(())
}

/// Read the `kid` (protected header key 4) for V6 matching.
#[verifier::loop_isolation(false)]
fn signature_kid(protected: &Value) -> (r: Option<[u8; 32]>)
    ensures
        match signature_kid_spec(protected@) {
            Some(k) => r matches Some(a) && a@ == k,
            None => r is None,
        },
{
    let map = match protected.as_map() {
        Some(m) => m,
        None => return None,
    };
    let ghost pairs = model_pairs(map@);
    proof {
        lemma_model_pairs(map@);
    }
    let mut i: usize = 0;
    while i < map.len()
        invariant
            0 <= i <= map@.len(),
            pairs == model_pairs(map@),
            pairs.len() == map@.len(),
            forall|j: int|
                0 <= j < map@.len() ==> #[trigger] pairs[j] == (model(map@[j].0), model(map@[j].1)),
            find_kid(pairs, 0) == find_kid(pairs, i as int),
        decreases map@.len() - i,
    {
        match map[i].0.as_int() {
            Some(4) => {
                return match map[i].1.as_bytes() {
                    Some(b) => if b.len() == 32 {
                        Some(crate::bytes::to_array32(b))
                    } else {
                        None
                    },
                    None => None,
                };
            },
            _ => {},
        }
        i += 1;
    }
    None
}

/// V6: match each signature to a party by `kid = SHA-256(pub)`. Returns, for
/// each party (by index), the index of its signature.
#[verifier::loop_isolation(false)]
fn match_signatures(parties: &[Party], signatures: &[SignatureEntry]) -> (r: Result<Vec<usize>, Error>)
    ensures
        r matches Ok(v) ==> match_spec(parties_view(parties@), sig_entries_view(signatures@))
            == Ok::<Seq<int>, Error>(Seq::new(v@.len(), |j: int| v@[j] as int)) && v@.len()
            == parties@.len() && forall|j: int| 0 <= j < v@.len() ==> #[trigger] v@[j] < signatures@.len(),
        r matches Err(e) ==> match_spec(parties_view(parties@), sig_entries_view(signatures@))
            == Err::<Seq<int>, Error>(e),
{
    let ghost ps = parties_view(parties@);
    let ghost sigs = sig_entries_view(signatures@);
    let ghost kids0 = kids_of(ps);
    let mut kids: Vec<[u8; 32]> = Vec::new();
    let mut sig_for_party: Vec<Option<usize>> = Vec::new();
    let mut j: usize = 0;
    while j < parties.len()
        invariant
            0 <= j <= parties@.len(),
            kids@.len() == j,
            sig_for_party@.len() == j,
            forall|x: int| 0 <= x < j ==> (#[trigger] kids@[x])@ == kids0[x],
            forall|x: int| 0 <= x < j ==> (#[trigger] sig_for_party@[x]) is None,
        decreases parties@.len() - j,
    {
        kids.push(sha256(parties[j].pubkey.as_slice()));
        sig_for_party.push(None);
        j += 1;
    }
    let ghost init = Seq::new(ps.len(), |x: int| None::<int>);
    assert(Seq::new(sig_for_party@.len(), |x: int| match sig_for_party@[x] { Some(s) => Some(s as int), None => None::<int> }) =~= init);
    let mut i: usize = 0;
    while i < signatures.len()
        invariant
            0 <= i <= signatures@.len(),
            kids@.len() == parties@.len(),
            sig_for_party@.len() == parties@.len(),
            forall|x: int| 0 <= x < parties@.len() ==> (#[trigger] kids@[x])@ == kids0[x],
            forall|x: int| 0 <= x < parties@.len() ==> ((#[trigger] sig_for_party@[x]) matches Some(s) ==> s < i),
            match_scan(kids0, sigs, 0, init) == match_scan(
                kids0,
                sigs,
                i as int,
                Seq::new(sig_for_party@.len(), |x: int| match sig_for_party@[x] {
                    Some(s) => Some(s as int),
                    None => None::<int>,
                }),
            ),
        decreases signatures@.len() - i,
    {
        let kid = match signature_kid(&signatures[i].protected) {
            Some(k) => k,
            None => return Err(Error::SigExtra),
        };
        let mut party_idx: usize = 0;
        while party_idx < kids.len() && !eq32(&kids[party_idx], &kid)
            invariant
                0 <= party_idx <= kids@.len(),
                kids@.len() == parties@.len(),
                forall|x: int| 0 <= x < parties@.len() ==> (#[trigger] kids@[x])@ == kids0[x],
                first_index(kids0, kid@, 0) == first_index(kids0, kid@, party_idx as int),
            decreases kids@.len() - party_idx,
        {
            party_idx += 1;
        }
        if party_idx == kids.len() {
            return Err(Error::SigExtra);
        }
        if sig_for_party[party_idx].is_some() {
            return Err(Error::SigExtra);  // party signed for twice
        }
        let ghost before = sig_for_party@;
        sig_for_party.set(party_idx, Some(i));
        proof {
            assert(Seq::new(sig_for_party@.len(), |x: int| match sig_for_party@[x] {
                Some(s) => Some(s as int),
                None => None::<int>,
            }) =~= Seq::new(before.len(), |x: int| match before[x] {
                Some(s) => Some(s as int),
                None => None::<int>,
            }).update(party_idx as int, Some(i as int)));
        }
        i += 1;
    }
    let ghost fin = Seq::new(sig_for_party@.len(), |x: int| match sig_for_party@[x] {
        Some(s) => Some(s as int),
        None => None::<int>,
    });
    let mut out: Vec<usize> = Vec::new();
    let mut p: usize = 0;
    while p < sig_for_party.len()
        invariant
            0 <= p <= sig_for_party@.len(),
            out@.len() == p,
            forall|x: int| 0 <= x < p ==> Some(#[trigger] out@[x]) == sig_for_party@[x],
        decreases sig_for_party@.len() - p,
    {
        match sig_for_party[p] {
            Some(s) => out.push(s),
            None => {
                assert(fin[p as int] is None);
                return Err(Error::SigMissing);
            },
        }
        p += 1;
    }
    assert(Seq::new(out@.len(), |j: int| out@[j] as int) =~= Seq::new(fin.len(), |j: int| fin[j]->0));
    assert forall|j: int| 0 <= j < fin.len() implies (#[trigger] fin[j]) is Some by {
        assert(Some(out@[j]) == sig_for_party@[j]);
    }
    Ok(out)
}

/// V7: the protected header has exactly keys {1: alg, 4: kid, 15: {6: iat}},
/// the unprotected header is empty, and the header `alg` equals the party's
/// claim `alg`. Header-shape problems are `E_HEADER`; the alg mismatch is
/// `E_ALG`.
#[verifier::loop_isolation(false)]
fn check_signature_headers(entry: &SignatureEntry, party: &Party) -> (r: Result<(), Error>)
    ensures
        r matches Ok(_) ==> check_headers_spec(entry@, party@) == Ok::<(), Error>(()),
        r matches Err(e) ==> check_headers_spec(entry@, party@) == Err::<(), Error>(e),
{
    if !envelope::is_empty_map(&entry.unprotected) {
        return Err(Error::Header);
    }
    let map = match entry.protected.as_map() {
        Some(m) => m,
        None => return Err(Error::Header),
    };
    let ghost pairs = model_pairs(map@);
    proof {
        lemma_model_pairs(map@);
    }
    if map.len() != 3 {
        return Err(Error::Header);
    }
    let mut alg_id: Option<i128> = None;
    let mut has_kid = false;
    let mut has_iat = false;
    let mut i: usize = 0;
    while i < map.len()
        invariant
            0 <= i <= map@.len(),
            scan_header(pairs, 0, HeaderScan { alg_id: None, has_kid: false, has_iat: false })
                == scan_header(
                pairs,
                i as int,
                HeaderScan {
                    alg_id: match alg_id {
                        Some(a) => Some(a as int),
                        None => None,
                    },
                    has_kid,
                    has_iat,
                },
            ),
        decreases map@.len() - i,
    {
        let k = &map[i].0;
        let v = &map[i].1;
        match k.as_int() {
            Some(1) => {
                match v.as_int() {
                    Some(a) => alg_id = Some(a),
                    None => return Err(Error::Header),
                }
            },
            Some(4) => {
                match v.as_bytes() {
                    Some(_) => has_kid = true,
                    None => return Err(Error::Header),
                }
            },
            Some(15) => {
                // The CWT-claims map is exactly {6: iat}, no extra parameters.
                let cwt = match v.as_map() {
                    Some(c) => c,
                    None => return Err(Error::Header),
                };
                proof {
                    lemma_model_pairs(cwt@);
                }
                if cwt.len() != 1 {
                    return Err(Error::Header);
                }
                match cwt[0].0.as_int() {
                    Some(6) => {},
                    _ => return Err(Error::Header),
                }
                match cwt[0].1.as_int() {
                    Some(_) => {},
                    None => return Err(Error::Header),
                }
                has_iat = true;
            },
            _ => return Err(Error::Header),  // unknown header parameter
        }
        i += 1;
    }
    if !has_kid || !has_iat {
        return Err(Error::Header);
    }
    // alg is taken from the claim (which every party signed); the header copy
    // must agree, or verification could run under a different scheme.
    match alg_id {
        Some(a) => if a != party.alg.cose_id() {
            return Err(Error::Alg);
        },
        None => return Err(Error::Alg),
    }
    Ok(())
}

/// V8: the signature verifies over the RFC 9052 Sig_structure for context
/// "Signature", with empty external_aad and the claim bytes as payload.
fn verify_signature(env: &Envelope, claim_bytes: &[u8], entry: &SignatureEntry, party: &Party) -> (r:
    Result<(), Error>)
    ensures
        r is Ok <==> verify_spec(
            party.alg,
            party.pubkey@,
            sig_structure_spec(env.body_protected_bytes@, entry.protected_bytes@, claim_bytes@),
            entry.signature@,
        ),
        r is Err ==> r == Err::<(), Error>(Error::SigInvalid),
{
    let mut items: Vec<Value> = Vec::new();
    items.push(Value::Text("Signature".to_owned()));
    items.push(Value::Bytes(crate::bytes::to_vec(env.body_protected_bytes.as_slice())));
    items.push(Value::Bytes(crate::bytes::to_vec(entry.protected_bytes.as_slice())));
    items.push(Value::Bytes(Vec::new()));  // external_aad must be empty
    items.push(Value::Bytes(crate::bytes::to_vec(claim_bytes)));
    let ghost items_view = items@;
    let structure = Value::Array(items);
    proof {
        crate::cbor::lemma_model_seq(items_view);
        assert(crate::cbor::model_seq(items_view) =~= seq![
            Cbor::Text("Signature"@),
            Cbor::Bytes(env.body_protected_bytes@),
            Cbor::Bytes(entry.protected_bytes@),
            Cbor::Bytes(Seq::empty()),
            Cbor::Bytes(claim_bytes@),
        ]);
    }
    let sig_structure = encode(&structure);
    sig::verify(party.alg, party.pubkey.as_slice(), sig_structure.as_slice(), entry.signature.as_slice())
}

/// The payload is optional evidence: an artifact verifies with or without
/// it, and presenting it only adds the check that it is the committed
/// payload.
pub proof fn law_payload_optional(envelope_bytes: Seq<u8>, expected_domain: Seq<char>, payload: Seq<u8>)
    ensures
        verify_bcf_spec(envelope_bytes, expected_domain, Some(payload)) == match verify_bcf_spec(
            envelope_bytes,
            expected_domain,
            None,
        ) {
            Err(e) => Err(e),
            Ok(v) => if sha256_spec(payload) == v.claim.payload_hash {
                Ok(v)
            } else {
                Err(Error::PayloadHash)
            },
        },
{
}

proof fn lemma_match_scan_errors(kids: Seq<Seq<u8>>, sigs: Seq<SigEntryModel>, i: int, assign: Seq<Option<int>>)
    ensures
        match_scan(kids, sigs, i, assign) matches Err(e) ==> e == Error::SigExtra,
    decreases sigs.len() - i,
{
    if 0 <= i < sigs.len() {
        if let Some(kid) = signature_kid_spec(sigs[i].protected) {
            if let Some(p) = first_index(kids, kid, 0) {
                if assign[p] is None {
                    lemma_match_scan_errors(kids, sigs, i + 1, assign.update(p, Some(i)));
                }
            }
        }
    }
}

proof fn lemma_scan_header_errors(pairs: Seq<(Cbor, Cbor)>, i: int, st: HeaderScan)
    ensures
        scan_header(pairs, i, st) matches Err(e) ==> e == Error::Header,
    decreases pairs.len() - i,
{
    if 0 <= i < pairs.len() {
        let k = pairs[i].0;
        let v = pairs[i].1;
        if k == Cbor::Int(1) {
            if let Cbor::Int(a) = v {
                lemma_scan_header_errors(pairs, i + 1, HeaderScan { alg_id: Some(a), ..st });
            }
        } else if k == Cbor::Int(4) {
            lemma_scan_header_errors(pairs, i + 1, HeaderScan { has_kid: true, ..st });
        } else if k == Cbor::Int(15) {
            lemma_scan_header_errors(pairs, i + 1, HeaderScan { has_iat: true, ..st });
        }
    }
}

proof fn lemma_headers_all_errors(sigs: Seq<SigEntryModel>, parties: Seq<PartyModel>, sfp: Seq<int>, p: int)
    ensures
        headers_all(sigs, parties, sfp, p) matches Err(e) ==> e == Error::Header || e == Error::Alg,
    decreases sfp.len() - p,
{
    if 0 <= p < sfp.len() {
        let entry = sigs[sfp[p]];
        if let Cbor::Mapping(pairs) = entry.protected {
            lemma_scan_header_errors(pairs, 0, HeaderScan { alg_id: None, has_kid: false, has_iat: false });
        }
        lemma_headers_all_errors(sigs, parties, sfp, p + 1);
    }
}

/// The failures of single-artifact verification (V1–V9).
pub open spec fn artifact_error(e: Error) -> bool {
    ||| e == Error::Decode
    ||| e == Error::Noncanonical
    ||| e == Error::Envelope
    ||| e == Error::Structure
    ||| e == Error::Domain
    ||| e == Error::Party
    ||| e == Error::SigMissing
    ||| e == Error::SigExtra
    ||| e == Error::Alg
    ||| e == Error::Header
    ||| e == Error::SigInvalid
    ||| e == Error::PayloadHash
}

/// Artifact verification reports only the artifact codes of V1–V9, never a
/// chain, receipt, head or log code.
pub proof fn law_artifact_errors(envelope_bytes: Seq<u8>, expected_domain: Seq<char>, payload: Option<Seq<u8>>)
    ensures
        verify_bcf_spec(envelope_bytes, expected_domain, payload) matches Err(e) ==> artifact_error(e),
{
    crate::envelope::lemma_parse_errors(envelope_bytes);
    if let Ok(env) = parse_spec(envelope_bytes) {
        if let Some(claim_bytes) = env.payload {
            law_decode_errors(claim_bytes);
            if let Ok(cv) = decode_canonical_spec(claim_bytes) {
                crate::claim::lemma_structure_errors(cv);
                if let Ok(f) = structure_spec(cv) {
                    if let Ok(ps) = parties_spec(f.parties_raw) {
                        lemma_match_scan_errors(
                            kids_of(ps),
                            env.signatures,
                            0,
                            Seq::new(ps.len(), |j: int| None::<int>),
                        );
                        if let Ok(sfp) = match_spec(ps, env.signatures) {
                            lemma_headers_all_errors(env.signatures, ps, sfp, 0);
                        }
                    }
                }
            }
        }
    }
}

// ---------------------------------------------------------------------------
// The verdict does not depend on the order of the signatures
// ---------------------------------------------------------------------------

/// The party a signature names by its kid, if any.
spec fn party_of(kids: Seq<Seq<u8>>, sig: SigEntryModel) -> Option<int> {
    match signature_kid_spec(sig.protected) {
        None => None,
        Some(kid) => first_index(kids, kid, 0),
    }
}

/// Every signature names a party, and no two name the same one.
spec fn matching_ok(kids: Seq<Seq<u8>>, sigs: Seq<SigEntryModel>) -> bool {
    &&& forall|i: int| 0 <= i < sigs.len() ==> (#[trigger] party_of(kids, sigs[i])) is Some
    &&& forall|i: int, j: int|
        0 <= i < sigs.len() && 0 <= j < sigs.len() && i != j ==> #[trigger] party_of(kids, sigs[i]) != #[trigger] party_of(
            kids,
            sigs[j],
        )
}

proof fn lemma_first_index_range(kids: Seq<Seq<u8>>, kid: Seq<u8>, j: int)
    requires
        0 <= j,
    ensures
        first_index(kids, kid, j) matches Some(p) ==> j <= p < kids.len(),
    decreases kids.len() - j,
{
    if j < kids.len() && kids[j] != kid {
        lemma_first_index_range(kids, kid, j + 1);
    }
}

/// The assignment after reading the first `i` signatures records, for each
/// party, the signature naming it.
spec fn assigned_upto(kids: Seq<Seq<u8>>, sigs: Seq<SigEntryModel>, i: int, assign: Seq<Option<int>>) -> bool {
    &&& assign.len() == kids.len()
    &&& forall|j: int| 0 <= j < i ==> (#[trigger] party_of(kids, sigs[j])) is Some
    &&& forall|j1: int, j2: int|
        0 <= j1 < i && 0 <= j2 < i && j1 != j2 ==> #[trigger] party_of(kids, sigs[j1]) != #[trigger] party_of(
            kids,
            sigs[j2],
        )
    &&& forall|pp: int, j: int|
        0 <= pp < kids.len() ==> (#[trigger] assign[pp] == Some(j) <==> (0 <= j < i && #[trigger] party_of(
            kids,
            sigs[j],
        ) == Some(pp)))
}

proof fn lemma_match_scan(kids: Seq<Seq<u8>>, sigs: Seq<SigEntryModel>, i: int, assign: Seq<Option<int>>)
    requires
        0 <= i <= sigs.len(),
        assigned_upto(kids, sigs, i, assign),
    ensures
        match_scan(kids, sigs, i, assign) is Ok <==> matching_ok(kids, sigs),
        match_scan(kids, sigs, i, assign) matches Ok(a) ==> assigned_upto(kids, sigs, sigs.len() as int, a),
    decreases sigs.len() - i,
{
    if i < sigs.len() {
        let po = party_of(kids, sigs[i]);
        if let Some(kid) = signature_kid_spec(sigs[i].protected) {
            lemma_first_index_range(kids, kid, 0);
        }
        match po {
            None => {
                assert(!matching_ok(kids, sigs));
            },
            Some(pp) => {
                if assign[pp] is Some {
                    let j = assign[pp]->0;
                    assert(party_of(kids, sigs[j]) == Some(pp));
                    assert(!matching_ok(kids, sigs));
                } else {
                    let a2 = assign.update(pp, Some(i));
                    assert forall|j: int| 0 <= j < i implies #[trigger] party_of(kids, sigs[j]) != Some(pp) by {
                        if party_of(kids, sigs[j]) == Some(pp) {
                            assert(assign[pp] == Some(j));
                        }
                    }
                    assert(assigned_upto(kids, sigs, i + 1, a2)) by {
                        assert forall|q: int, j: int|
                            0 <= q < kids.len() implies (#[trigger] a2[q] == Some(j) <==> (0 <= j < i + 1
                            && #[trigger] party_of(kids, sigs[j]) == Some(q))) by {
                            if q != pp {
                                assert(a2[q] == assign[q]);
                            }
                        }
                    }
                    lemma_match_scan(kids, sigs, i + 1, a2);
                }
            },
        }
    }
}

/// Two signature lists in which each party's signature is the same entry
/// pass or fail V7 alike.
proof fn lemma_headers_same(
    sigs1: Seq<SigEntryModel>,
    sigs2: Seq<SigEntryModel>,
    parties: Seq<PartyModel>,
    sfp1: Seq<int>,
    sfp2: Seq<int>,
    k: int,
)
    requires
        sfp1.len() == sfp2.len(),
        forall|pp: int| 0 <= pp < sfp1.len() ==> sigs1[#[trigger] sfp1[pp]] == sigs2[sfp2[pp]],
    ensures
        headers_all(sigs1, parties, sfp1, k) == headers_all(sigs2, parties, sfp2, k),
    decreases sfp1.len() - k,
{
    if 0 <= k < sfp1.len() {
        lemma_headers_same(sigs1, sigs2, parties, sfp1, sfp2, k + 1);
    }
}

/// V6–V8 on a rearranged signature list: matching fails alike, and once
/// it succeeds each party gets the same signature entry.
proof fn lemma_match_rearranged(
    ps: Seq<PartyModel>,
    e1: EnvelopeModel,
    e2: EnvelopeModel,
    claim_bytes: Seq<u8>,
    p: spec_fn(int) -> int,
    q: spec_fn(int) -> int,
)
    requires
        rearranged(e1.signatures, e2.signatures, p, q),
        e1.body_protected_bytes == e2.body_protected_bytes,
    ensures
        match_spec(ps, e1.signatures) is Err ==> match_spec(ps, e1.signatures) == match_spec(ps, e2.signatures),
        match_spec(ps, e2.signatures) is Err ==> match_spec(ps, e1.signatures) == match_spec(ps, e2.signatures),
        (match_spec(ps, e1.signatures) is Ok && match_spec(ps, e2.signatures) is Ok) ==> {
            let sfp1 = match_spec(ps, e1.signatures)->Ok_0;
            let sfp2 = match_spec(ps, e2.signatures)->Ok_0;
            &&& headers_all(e1.signatures, ps, sfp1, 0) == headers_all(e2.signatures, ps, sfp2, 0)
            &&& signatures_ok(e1, claim_bytes, ps, sfp1) == signatures_ok(e2, claim_bytes, ps, sfp2)
        },
{
    let (s1, s2) = (e1.signatures, e2.signatures);
    lemma_rearranged_symmetric(s1, s2, p, q);
    let kids = kids_of(ps);
    let none = Seq::new(ps.len(), |j: int| None::<int>);
    lemma_match_scan(kids, s1, 0, none);
    lemma_match_scan(kids, s2, 0, none);
    lemma_match_scan_errors(kids, s1, 0, none);
    lemma_match_scan_errors(kids, s2, 0, none);
    assert(matching_ok(kids, s1) == matching_ok(kids, s2)) by {
        if matching_ok(kids, s1) {
            assert forall|i: int| 0 <= i < s2.len() implies (#[trigger] party_of(kids, s2[i])) is Some by {
                assert(s2[i] == s1[p(i)]);
            }
            assert forall|i: int, j: int|
                0 <= i < s2.len() && 0 <= j < s2.len() && i != j implies #[trigger] party_of(kids, s2[i])
                != #[trigger] party_of(kids, s2[j]) by {
                assert(s2[i] == s1[p(i)] && s2[j] == s1[p(j)]);
            }
        }
        if matching_ok(kids, s2) {
            assert forall|i: int| 0 <= i < s1.len() implies (#[trigger] party_of(kids, s1[i])) is Some by {
                assert(s1[i] == s2[q(i)]);
            }
            assert forall|i: int, j: int|
                0 <= i < s1.len() && 0 <= j < s1.len() && i != j implies #[trigger] party_of(kids, s1[i])
                != #[trigger] party_of(kids, s1[j]) by {
                assert(s1[i] == s2[q(i)] && s1[j] == s2[q(j)]);
            }
        }
    }
    if matching_ok(kids, s1) {
        let a1 = match_scan(kids, s1, 0, none)->Ok_0;
        let a2 = match_scan(kids, s2, 0, none)->Ok_0;
        // A party is signed for in one list exactly when in the other.
        assert forall|pp: int| 0 <= pp < ps.len() implies (#[trigger] a1[pp] is None <==> a2[pp] is None) by {
            if a1[pp] is Some {
                let j = a1[pp]->0;
                assert(a1[pp] == Some(j));
                assert(0 <= j < s1.len() && party_of(kids, s1[j]) == Some(pp));
                assert(s2[q(j)] == s1[j]);
                assert(party_of(kids, s2[q(j)]) == Some(pp));
                assert(a2[pp] == Some(q(j)));
            }
            if a2[pp] is Some {
                let j = a2[pp]->0;
                assert(a2[pp] == Some(j));
                assert(0 <= j < s2.len() && party_of(kids, s2[j]) == Some(pp));
                assert(s1[p(j)] == s2[j]);
                assert(party_of(kids, s1[p(j)]) == Some(pp));
                assert(a1[pp] == Some(p(j)));
            }
        }
        assert((exists|j: int| 0 <= j < a1.len() && (#[trigger] a1[j]) is None) == (exists|j: int|
            0 <= j < a2.len() && (#[trigger] a2[j]) is None)) by {
            if exists|j: int| 0 <= j < a1.len() && (#[trigger] a1[j]) is None {
                let j = choose|j: int| 0 <= j < a1.len() && (#[trigger] a1[j]) is None;
                assert(a2[j] is None);
            }
            if exists|j: int| 0 <= j < a2.len() && (#[trigger] a2[j]) is None {
                let j = choose|j: int| 0 <= j < a2.len() && (#[trigger] a2[j]) is None;
                assert(a1[j] is None);
            }
        }
        if !(exists|j: int| 0 <= j < a1.len() && (#[trigger] a1[j]) is None) {
            let sfp1 = Seq::new(a1.len(), |j: int| a1[j]->0);
            let sfp2 = Seq::new(a2.len(), |j: int| a2[j]->0);
            assert forall|pp: int| 0 <= pp < sfp1.len() implies s1[#[trigger] sfp1[pp]] == s2[sfp2[pp]] by {
                assert(a1[pp] is Some);
                assert(a2[pp] is Some);
                let j1 = a1[pp]->0;
                let j2 = a2[pp]->0;
                assert(a1[pp] == Some(j1));
                assert(a2[pp] == Some(j2));
                assert(0 <= j1 < s1.len() && party_of(kids, s1[j1]) == Some(pp));
                assert(0 <= j2 < s2.len() && party_of(kids, s2[j2]) == Some(pp));
                assert(s2[j2] == s1[p(j2)]);
                assert(party_of(kids, s1[p(j2)]) == Some(pp));
                assert(party_of(kids, s1[j1]) == Some(pp));
                assert(p(j2) == j1);
            }
            lemma_headers_same(s1, s2, ps, sfp1, sfp2, 0);
            let bp = e1.body_protected_bytes;
            if signatures_ok(e1, claim_bytes, ps, sfp1) {
                assert forall|pp: int| 0 <= pp < sfp2.len() implies verify_spec(
                    ps[pp].alg,
                    ps[pp].pubkey,
                    sig_structure_spec(bp, s2[#[trigger] sfp2[pp]].protected_bytes, claim_bytes),
                    s2[sfp2[pp]].signature,
                ) by {
                    assert(s1[sfp1[pp]] == s2[sfp2[pp]]);
                }
            }
            if signatures_ok(e2, claim_bytes, ps, sfp2) {
                assert forall|pp: int| 0 <= pp < sfp1.len() implies verify_spec(
                    ps[pp].alg,
                    ps[pp].pubkey,
                    sig_structure_spec(bp, s1[#[trigger] sfp1[pp]].protected_bytes, claim_bytes),
                    s1[sfp1[pp]].signature,
                ) by {
                    assert(s2[sfp2[pp]] == s1[sfp1[pp]]);
                }
            }
        }
    }
}

/// The verdict on an envelope does not depend on the order of its
/// signatures: two envelopes that decode to the same parts, their
/// signature lists rearranged, verify alike.
pub proof fn law_signature_order(
    bytes_1: Seq<u8>,
    bytes_2: Seq<u8>,
    p: spec_fn(int) -> int,
    q: spec_fn(int) -> int,
    expected_domain: Seq<char>,
    payload: Option<Seq<u8>>,
)
    requires
        parse_spec(bytes_1) is Ok,
        parse_spec(bytes_2) is Ok,
        parse_spec(bytes_1)->Ok_0.body_protected_bytes == parse_spec(bytes_2)->Ok_0.body_protected_bytes,
        parse_spec(bytes_1)->Ok_0.body_protected == parse_spec(bytes_2)->Ok_0.body_protected,
        parse_spec(bytes_1)->Ok_0.body_unprotected == parse_spec(bytes_2)->Ok_0.body_unprotected,
        parse_spec(bytes_1)->Ok_0.payload == parse_spec(bytes_2)->Ok_0.payload,
        rearranged(parse_spec(bytes_1)->Ok_0.signatures, parse_spec(bytes_2)->Ok_0.signatures, p, q),
    ensures
        verify_bcf_spec(bytes_1, expected_domain, payload) == verify_bcf_spec(bytes_2, expected_domain, payload),
{
    let e1 = parse_spec(bytes_1)->Ok_0;
    let e2 = parse_spec(bytes_2)->Ok_0;
    if let Some(claim_bytes) = e1.payload {
        if let Ok(cv) = decode_canonical_spec(claim_bytes) {
            if let Ok(f) = structure_spec(cv) {
                if let Ok(ps) = parties_spec(f.parties_raw) {
                    lemma_match_rearranged(ps, e1, e2, claim_bytes, p, q);
                }
            }
        }
    }
}

} // verus!
