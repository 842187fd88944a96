//! The claim: the unit of agreement.
//!
//! This module owns the V3 structural check (claim shape, field types and
//! syntax) and the V5 party-set check (well-formed, unique, sorted, at least
//! two). It imposes only the syntactic rules; it never reads meaning into
//! `claim_type`, `prev`, or `predicate`.
use crate::bytes::{bytes_eq, bytes_lt, lex_lt, to_array16, to_array32};
use crate::cbor::{encode, enc, lemma_model_pairs, lemma_model_seq, model, model_pairs, model_seq, Cbor, Value};
use crate::error::Error;
use crate::merkle::digests;
use crate::predicate::{is_valid_entry, valid_entry_spec};
use crate::sig::{alg_from_cose, pubkey_len_spec, Alg};
use vstd::prelude::*;
use vstd::utf8::encode_utf8;

verus! {

/// A party named in the claim's required signer set.
#[derive(Debug, Clone, PartialEq, Eq)]
pub struct Party {
    /// Identity URI (at most 256 bytes).
    pub id: String,
    /// Raw public key bytes (32 for Ed25519, 33 for secp256k1 compressed).
    pub pubkey: Vec<u8>,
    /// The algorithm this party signs with.
    pub alg: Alg,
}

/// The content of a party entry.
pub ghost struct PartyModel {
    pub id: Seq<char>,
    pub pubkey: Seq<u8>,
    pub alg: Alg,
}

impl View for Party {
    type V = PartyModel;

    open spec fn view(&self) -> PartyModel {
        PartyModel { id: self.id@, pubkey: self.pubkey@, alg: self.alg }
    }
}

/// The views of a sequence of parties.
pub open spec fn parties_view(s: Seq<Party>) -> Seq<PartyModel> {
    Seq::new(s.len(), |i: int| s[i]@)
}

/// The views of a sequence of strings.
pub open spec fn strings_view(s: Seq<String>) -> Seq<Seq<char>> {
    Seq::new(s.len(), |i: int| s[i]@)
}

/// A fully validated claim (returned once V1–V9 pass).
#[derive(Debug, Clone, PartialEq, Eq)]
pub struct Claim {
    /// Domain separator; `"BCF/1"` for this version.
    pub domain: String,
    /// Application claim type (lowercase, `[a-z0-9:/.-]+`, at most 64 bytes).
    pub claim_type: String,
    /// Proposer-chosen 16-byte freshness nonce.
    pub nonce: [u8; 16],
    /// SHA-256 of the opaque application payload.
    pub payload_hash: [u8; 32],
    /// The required signer set (at least two, sorted, unique by key).
    pub parties: Vec<Party>,
    /// Predecessor claim hashes; empty for a genesis claim.
    pub prev: Vec<[u8; 32]>,
    /// Optional predicate-identity set.
    pub predicate: Option<Vec<String>>,
}

/// The content of a claim.
pub ghost struct ClaimModel {
    pub domain: Seq<char>,
    pub claim_type: Seq<char>,
    pub nonce: Seq<u8>,
    pub payload_hash: Seq<u8>,
    pub parties: Seq<PartyModel>,
    pub prev: Seq<Seq<u8>>,
    pub predicate: Option<Seq<Seq<char>>>,
}

pub open spec fn opt_strings_view(p: Option<Vec<String>>) -> Option<Seq<Seq<char>>> {
    match p {
        Some(v) => Some(strings_view(v@)),
        None => None,
    }
}

impl View for Claim {
    type V = ClaimModel;

    open spec fn view(&self) -> ClaimModel {
        ClaimModel {
            domain: self.domain@,
            claim_type: self.claim_type@,
            nonce: self.nonce@,
            payload_hash: self.payload_hash@,
            parties: parties_view(self.parties@),
            prev: digests(self.prev@),
            predicate: opt_strings_view(self.predicate),
        }
    }
}

// ---------------------------------------------------------------------------
// Party entries (V5 for a single entry)
// ---------------------------------------------------------------------------

/// The fields of a party entry read so far.
pub ghost struct PartyScan {
    pub id: Option<Seq<char>>,
    pub pubkey: Option<Seq<u8>>,
    pub alg_id: Option<int>,
}

/// Reading the entries of a party-entry map from index `i`: keys 1 (text),
/// 2 (bytes) and 3 (integer) only; a later key overrides an earlier one.
pub open spec fn scan_party(pairs: Seq<(Cbor, Cbor)>, i: int, st: PartyScan) -> Result<
    PartyScan,
    Error,
>
    decreases pairs.len() - i,
{
    if i < 0 || i >= pairs.len() {
        Ok(st)
    } else {
        let k = pairs[i].0;
        let v = pairs[i].1;
        if k == Cbor::Int(1) {
            match v {
                Cbor::Text(t) => scan_party(
                    pairs,
                    i + 1,
                    PartyScan { id: Some(t), pubkey: st.pubkey, alg_id: st.alg_id },
                ),
                _ => Err(Error::Party),
            }
        } else if k == Cbor::Int(2) {
            match v {
                Cbor::Bytes(b) => scan_party(
                    pairs,
                    i + 1,
                    PartyScan { id: st.id, pubkey: Some(b), alg_id: st.alg_id },
                ),
                _ => Err(Error::Party),
            }
        } else if k == Cbor::Int(3) {
            match v {
                Cbor::Int(a) => scan_party(
                    pairs,
                    i + 1,
                    PartyScan { id: st.id, pubkey: st.pubkey, alg_id: Some(a) },
                ),
                _ => Err(Error::Party),
            }
        } else {
            Err(Error::Party)
        }
    }
}

/// What [`party_entry`] returns for a value: a map with exactly keys
/// {1: id, 2: pub, 3: alg}, a supported alg whose key length matches the
/// key, and an id of at most 256 bytes; otherwise `E_PARTY`.
pub open spec fn party_entry_spec(c: Cbor) -> Result<PartyModel, Error> {
    match c {
        Cbor::Mapping(pairs) => match scan_party(
            pairs,
            0,
            PartyScan { id: None, pubkey: None, alg_id: None },
        ) {
            Err(e) => Err(e),
            Ok(st) => {
                if st.id is None || st.pubkey is None || st.alg_id is None {
                    Err(Error::Party)
                } else if alg_from_cose(st.alg_id->0) is None {
                    Err(Error::Party)
                } else {
                    let alg = alg_from_cose(st.alg_id->0)->0;
                    if encode_utf8(st.id->0).len() > 256 {
                        Err(Error::Party)
                    } else if st.pubkey->0.len() != pubkey_len_spec(alg) {
                        Err(Error::Party)
                    } else {
                        Ok(PartyModel { id: st.id->0, pubkey: st.pubkey->0, alg })
                    }
                }
            },
        },
        _ => Err(Error::Party),
    }
}

proof fn lemma_scan_party_err(pairs: Seq<(Cbor, Cbor)>, i: int, st: PartyScan)
    ensures
        scan_party(pairs, i, st) is Err ==> scan_party(pairs, i, st) == Err::<PartyScan, Error>(
            Error::Party,
        ),
    decreases pairs.len() - i,
{
    if 0 <= i < pairs.len() {
        let v = pairs[i].1;
        match v {
            Cbor::Text(t) => lemma_scan_party_err(
                pairs,
                i + 1,
                PartyScan { id: Some(t), pubkey: st.pubkey, alg_id: st.alg_id },
            ),
            Cbor::Bytes(b) => lemma_scan_party_err(
                pairs,
                i + 1,
                PartyScan { id: st.id, pubkey: Some(b), alg_id: st.alg_id },
            ),
            Cbor::Int(a) => lemma_scan_party_err(
                pairs,
                i + 1,
                PartyScan { id: st.id, pubkey: st.pubkey, alg_id: Some(a) },
            ),
            _ => {},
        }
    }
}

/// Every failure of a party entry is `E_PARTY`.
pub proof fn lemma_party_entry_err(c: Cbor)
    ensures
        party_entry_spec(c) is Err ==> party_entry_spec(c) == Err::<PartyModel, Error>(Error::Party),
{
    if let Cbor::Mapping(pairs) = c {
        lemma_scan_party_err(pairs, 0, PartyScan { id: None, pubkey: None, alg_id: None });
    }
}

/// Parse and validate a single party entry: a CBOR map with exactly keys
/// {1: id, 2: pub, 3: alg}, alg and pub length agreeing, no unknown keys.
#[verifier::loop_isolation(false)]
pub fn party_entry(entry: &Value) -> (r: Result<Party, Error>)
    ensures
        r matches Ok(p) ==> party_entry_spec(entry@) == Ok::<PartyModel, Error>(p@),
        r matches Err(e) ==> party_entry_spec(entry@) == Err::<PartyModel, Error>(e),
{
    let map = match entry.as_map() {
        Some(m) => m,
        None => return Err(Error::Party),
    };
    let ghost pairs = model_pairs(map@);
    proof {
        lemma_model_pairs(map@);
    }
    let mut id: Option<String> = None;
    let mut pubkey: Option<Vec<u8>> = None;
    let mut alg_id: Option<i128> = None;
    let mut i: usize = 0;
    while i < map.len()
        invariant
            0 <= i <= map@.len(),
            pairs == model_pairs(map@),
            pairs.len() == map@.len(),
            forall|j: int|
                0 <= j < map@.len() ==> #[trigger] pairs[j] == (model(map@[j].0), model(map@[j].1)),
            scan_party(pairs, 0, PartyScan { id: None, pubkey: None, alg_id: None }) == scan_party(
                pairs,
                i as int,
                PartyScan {
                    id: match id {
                        Some(s) => Some(s@),
                        None => None,
                    },
                    pubkey: match pubkey {
                        Some(b) => Some(b@),
                        None => None,
                    },
                    alg_id: match alg_id {
                        Some(a) => Some(a as int),
                        None => None,
                    },
                },
            ),
        decreases map@.len() - i,
    {
        let k = &map[i].0;
        let v = &map[i].1;
        match k.as_int() {
            Some(1) => {
                match v.as_text() {
                    Some(t) => id = Some(t.to_owned()),
                    None => return Err(Error::Party),
                }
            },
            Some(2) => {
                match v.as_bytes() {
                    Some(b) => pubkey = Some(crate::bytes::to_vec(b)),
                    None => return Err(Error::Party),
                }
            },
            Some(3) => {
                match v.as_int() {
                    Some(a) => alg_id = Some(a),
                    None => return Err(Error::Party),
                }
            },
            _ => return Err(Error::Party),  // unknown / non-int key
        }
        i += 1;
    }
    let id = match id {
        Some(s) => s,
        None => return Err(Error::Party),
    };
    let pubkey = match pubkey {
        Some(b) => b,
        None => return Err(Error::Party),
    };
    let alg_id = match alg_id {
        Some(a) => a,
        None => return Err(Error::Party),
    };
    let alg = match Alg::from_cose(alg_id) {
        Some(a) => a,
        None => return Err(Error::Party),
    };
    if id.as_str().as_bytes().len() > 256 {
        return Err(Error::Party);
    }
    // alg and pub length must agree.
    if pubkey.len() != alg.pubkey_len() {
        return Err(Error::Party);
    }
    Ok(Party { id, pubkey, alg })
}

// ---------------------------------------------------------------------------
// The party set (V5)
// ---------------------------------------------------------------------------

/// What [`parties`] returns for the raw party entries: at least two entries,
/// each well-formed, unique by public key, and sorted by encoded entry;
/// otherwise `E_PARTY`.
pub open spec fn parties_spec(raw: Seq<Cbor>) -> Result<Seq<PartyModel>, Error> {
    if raw.len() < 2 {
        Err(Error::Party)
    } else if exists|i: int| 0 <= i < raw.len() && (#[trigger] party_entry_spec(raw[i])) is Err {
        Err(Error::Party)
    } else {
        let ps = Seq::new(raw.len(), |i: int| party_entry_spec(raw[i])->Ok_0);
        if exists|i: int, j: int|
            0 <= i < j < raw.len() && (#[trigger] ps[i]).pubkey == (#[trigger] ps[j]).pubkey {
            Err(Error::Party)
        } else if exists|i: int| 0 <= i < raw.len() - 1 && lex_lt(enc(raw[i + 1]), enc(#[trigger] raw[i])) {
            Err(Error::Party)
        } else {
            Ok(ps)
        }
    }
}

/// V5: every party entry has exactly keys {1,2,3} with valid types, alg and
/// pub length agree, the set is unique by key and sorted by encoded entry,
/// and there are at least two parties.
#[verifier::loop_isolation(false)]
pub(crate) fn parties(parties_raw: &[Value]) -> (r: Result<Vec<Party>, Error>)
    ensures
        r matches Ok(ps) ==> parties_spec(model_seq(parties_raw@)) == Ok::<Seq<PartyModel>, Error>(
            parties_view(ps@),
        ),
        r matches Err(e) ==> parties_spec(model_seq(parties_raw@)) == Err::<Seq<PartyModel>, Error>(e),
{
    let ghost raw = model_seq(parties_raw@);
    proof {
        lemma_model_seq(parties_raw@);
    }
    if parties_raw.len() < 2 {
        return Err(Error::Party);
    }
    let mut parties: Vec<Party> = Vec::new();
    let mut i: usize = 0;
    while i < parties_raw.len()
        invariant
            0 <= i <= parties_raw@.len(),
            raw == model_seq(parties_raw@),
            raw.len() == parties_raw@.len(),
            forall|j: int| 0 <= j < parties_raw@.len() ==> #[trigger] raw[j] == model(parties_raw@[j]),
            parties@.len() == i,
            forall|j: int| 0 <= j < i ==> party_entry_spec(#[trigger] raw[j]) == Ok::<PartyModel, Error>(parties@[j]@),
        decreases parties_raw@.len() - i,
    {
        let p = party_entry(&parties_raw[i]);
        match p {
            Ok(p) => parties.push(p),
            Err(e) => {
                proof {
                    lemma_party_entry_err(raw[i as int]);
                }
                return Err(e);
            },
        }
        i += 1;
    }
    let ghost ps = Seq::new(raw.len(), |j: int| party_entry_spec(raw[j])->Ok_0);
    assert(ps =~= parties_view(parties@));
    // Unique by public key.
    let mut a: usize = 0;
    while a < parties.len()
        invariant
            0 <= a <= parties@.len(),
            ps == parties_view(parties@),
            ps.len() == parties@.len(),
            forall|x: int, y: int| 0 <= x < a && x < y < ps.len() ==> (#[trigger] ps[x]).pubkey != (#[trigger] ps[y]).pubkey,
        decreases parties@.len() - a,
    {
        let mut b: usize = a + 1;
        while b < parties.len()
            invariant
                a < parties@.len(),
                a + 1 <= b <= parties@.len(),
                ps == parties_view(parties@),
                ps.len() == parties@.len(),
                forall|x: int, y: int| 0 <= x < a && x < y < ps.len() ==> (#[trigger] ps[x]).pubkey != (#[trigger] ps[y]).pubkey,
                forall|y: int| a < y < b ==> ps[a as int].pubkey != (#[trigger] ps[y]).pubkey,
            decreases parties@.len() - b,
        {
            if bytes_eq(parties[a].pubkey.as_slice(), parties[b].pubkey.as_slice()) {
                assert(ps[a as int].pubkey == ps[b as int].pubkey);
                return Err(Error::Party);
            }
            b += 1;
        }
        a += 1;
    }
    // Sorted by the deterministic encoding of the entry. Canonical CBOR does
    // not reorder array elements, so this check is the sole guard.
    let mut w: usize = 0;
    while w + 1 < parties_raw.len()
        invariant
            0 <= w,
            w + 1 <= parties_raw@.len(),
            raw == model_seq(parties_raw@),
            raw.len() == parties_raw@.len(),
            forall|j: int| 0 <= j < parties_raw@.len() ==> #[trigger] raw[j] == model(parties_raw@[j]),
            forall|j: int| 0 <= j < w ==> !lex_lt(enc(raw[j + 1]), enc(#[trigger] raw[j])),
        decreases parties_raw@.len() - w,
    {
        let e0 = encode(&parties_raw[w]);
        let e1 = encode(&parties_raw[w + 1]);
        if bytes_lt(e1.as_slice(), e0.as_slice()) {
            assert(lex_lt(enc(raw[w + 1]), enc(raw[w as int])));
            return Err(Error::Party);
        }
        w += 1;
    }
    Ok(parties)
}

// ---------------------------------------------------------------------------
// The claim structure (V3)
// ---------------------------------------------------------------------------

/// A byte allowed in a claim type: `[a-z0-9:/.-]`.
pub open spec fn claim_type_byte(b: u8) -> bool {
    (0x61 <= b <= 0x7a) || (0x30 <= b <= 0x39) || b == 0x3a || b == 0x2f || b == 0x2e || b == 0x2d
}

/// A valid claim type: non-empty, at most 64 bytes, charset `[a-z0-9:/.-]`.
pub open spec fn claim_type_ok(t: Seq<char>) -> bool {
    let u = encode_utf8(t);
    0 < u.len() <= 64 && forall|i: int| 0 <= i < u.len() ==> claim_type_byte(#[trigger] u[i])
}

/// A `prev` field: an array of 32-byte byte strings.
pub open spec fn prev_spec(c: Cbor) -> Option<Seq<Seq<u8>>> {
    match c {
        Cbor::Array(items) => if forall|i: int|
            0 <= i < items.len() ==> (#[trigger] items[i]) is Bytes && items[i]->Bytes_0.len() == 32 {
            Some(Seq::new(items.len(), |i: int| items[i]->Bytes_0))
        } else {
            None
        },
        _ => None,
    }
}

/// A `predicate` field: a non-empty array of valid predicate entries.
pub open spec fn predicate_spec(c: Cbor) -> Option<Seq<Seq<char>>> {
    match c {
        Cbor::Array(items) => if items.len() > 0 && forall|i: int|
            0 <= i < items.len() ==> (#[trigger] items[i]) is Text && valid_entry_spec(items[i]->Text_0) {
            Some(Seq::new(items.len(), |i: int| items[i]->Text_0))
        } else {
            None
        },
        _ => None,
    }
}

/// The claim fields read so far.
pub ghost struct ClaimScan {
    pub domain: Option<Seq<char>>,
    pub claim_type: Option<Seq<char>>,
    pub nonce: Option<Seq<u8>>,
    pub payload_hash: Option<Seq<u8>>,
    pub parties: Option<Seq<Cbor>>,
    pub prev: Option<Seq<Seq<u8>>>,
    pub predicate: Option<Seq<Seq<char>>>,
}

pub open spec fn empty_claim_scan() -> ClaimScan {
    ClaimScan {
        domain: None,
        claim_type: None,
        nonce: None,
        payload_hash: None,
        parties: None,
        prev: None,
        predicate: None,
    }
}

/// Reading the entries of a claim map from index `i`: keys 1..=7 with their
/// types; anything else is `E_STRUCTURE`.
pub open spec fn scan_claim(pairs: Seq<(Cbor, Cbor)>, i: int, st: ClaimScan) -> Result<
    ClaimScan,
    Error,
>
    decreases pairs.len() - i,
{
    if i < 0 || i >= pairs.len() {
        Ok(st)
    } else {
        let k = pairs[i].0;
        let v = pairs[i].1;
        if k == Cbor::Int(1) {
            match v {
                Cbor::Text(t) => scan_claim(pairs, i + 1, ClaimScan { domain: Some(t), ..st }),
                _ => Err(Error::Structure),
            }
        } else if k == Cbor::Int(2) {
            match v {
                Cbor::Text(t) => if claim_type_ok(t) {
                    scan_claim(pairs, i + 1, ClaimScan { claim_type: Some(t), ..st })
                } else {
                    Err(Error::Structure)
                },
                _ => Err(Error::Structure),
            }
        } else if k == Cbor::Int(3) {
            match v {
                Cbor::Bytes(b) => if b.len() == 16 {
                    scan_claim(pairs, i + 1, ClaimScan { nonce: Some(b), ..st })
                } else {
                    Err(Error::Structure)
                },
                _ => Err(Error::Structure),
            }
        } else if k == Cbor::Int(4) {
            match v {
                Cbor::Bytes(b) => if b.len() == 32 {
                    scan_claim(pairs, i + 1, ClaimScan { payload_hash: Some(b), ..st })
                } else {
                    Err(Error::Structure)
                },
                _ => Err(Error::Structure),
            }
        } else if k == Cbor::Int(5) {
            match v {
                Cbor::Array(items) => scan_claim(pairs, i + 1, ClaimScan { parties: Some(items), ..st }),
                _ => Err(Error::Structure),
            }
        } else if k == Cbor::Int(6) {
            match prev_spec(v) {
                Some(p) => scan_claim(pairs, i + 1, ClaimScan { prev: Some(p), ..st }),
                None => Err(Error::Structure),
            }
        } else if k == Cbor::Int(7) {
            match predicate_spec(v) {
                Some(p) => scan_claim(pairs, i + 1, ClaimScan { predicate: Some(p), ..st }),
                None => Err(Error::Structure),
            }
        } else {
            Err(Error::Structure)
        }
    }
}

/// The fields of a structurally valid claim, before V5 validates parties.
pub ghost struct FieldsModel {
    pub domain: Seq<char>,
    pub claim_type: Seq<char>,
    pub nonce: Seq<u8>,
    pub payload_hash: Seq<u8>,
    pub prev: Seq<Seq<u8>>,
    pub predicate: Option<Seq<Seq<char>>>,
    pub parties_raw: Seq<Cbor>,
}

/// What [`structure`] returns: a map with exactly keys 1..=6 (7 optional)
/// of the right types, lengths and syntax; otherwise `E_STRUCTURE`.
pub open spec fn structure_spec(c: Cbor) -> Result<FieldsModel, Error> {
    match c {
        Cbor::Mapping(pairs) => match scan_claim(pairs, 0, empty_claim_scan()) {
            Err(e) => Err(e),
            Ok(st) => if st.domain is None || st.claim_type is None || st.nonce is None
                || st.payload_hash is None || st.prev is None || st.parties is None {
                Err(Error::Structure)
            } else {
                Ok(
                    FieldsModel {
                        domain: st.domain->0,
                        claim_type: st.claim_type->0,
                        nonce: st.nonce->0,
                        payload_hash: st.payload_hash->0,
                        prev: st.prev->0,
                        predicate: st.predicate,
                        parties_raw: st.parties->0,
                    },
                )
            },
        },
        _ => Err(Error::Structure),
    }
}

/// Fields extracted by the V3 structural check, before V5 validates parties.
pub(crate) struct ClaimFields<'a> {
    pub domain: String,
    pub claim_type: String,
    pub nonce: [u8; 16],
    pub payload_hash: [u8; 32],
    pub prev: Vec<[u8; 32]>,
    pub predicate: Option<Vec<String>>,
    /// Raw party-entry values, kept so V5 can judge their sort order by encoding.
    pub parties_raw: &'a [Value],
}

impl<'a> ClaimFields<'a> {
    pub(crate) open spec fn model(&self) -> FieldsModel {
        FieldsModel {
            domain: self.domain@,
            claim_type: self.claim_type@,
            nonce: self.nonce@,
            payload_hash: self.payload_hash@,
            prev: digests(self.prev@),
            predicate: opt_strings_view(self.predicate),
            parties_raw: model_seq(self.parties_raw@),
        }
    }
}

fn text(v: &Value) -> (r: Result<String, Error>)
    ensures
        match v@ {
            Cbor::Text(t) => r matches Ok(s) && s@ == t,
            _ => r == Err::<String, Error>(Error::Structure),
        },
{
    match v.as_text() {
        Some(t) => Ok(t.to_owned()),
        None => Err(Error::Structure),
    }
}

#[verifier::loop_isolation(false)]
fn claim_type_field(v: &Value) -> (r: Result<String, Error>)
    ensures
        match v@ {
            Cbor::Text(t) => if claim_type_ok(t) {
                r matches Ok(s) && s@ == t
            } else {
                r == Err::<String, Error>(Error::Structure)
            },
            _ => r == Err::<String, Error>(Error::Structure),
        },
{
    let s = match v.as_text() {
        Some(s) => s,
        None => return Err(Error::Structure),
    };
    // Non-empty, at most 64 bytes, charset [a-z0-9:/.-] — so that case or
    // exotic-character aliases cannot masquerade as distinct types.
    let u = s.as_bytes();
    if u.len() == 0 || u.len() > 64 {
        return Err(Error::Structure);
    }
    let mut i: usize = 0;
    while i < u.len()
        invariant
            0 <= i <= u@.len(),
            forall|j: int| 0 <= j < i ==> claim_type_byte(#[trigger] u@[j]),
        decreases u@.len() - i,
    {
        let b = u[i];
        if !((0x61 <= b && b <= 0x7a) || (0x30 <= b && b <= 0x39) || b == 0x3a || b == 0x2f || b
            == 0x2e || b == 0x2d) {
            return Err(Error::Structure);
        }
        i += 1;
    }
    Ok(s.to_owned())
}

fn fixed16(v: &Value) -> (r: Result<[u8; 16], Error>)
    ensures
        match v@ {
            Cbor::Bytes(b) => if b.len() == 16 {
                r matches Ok(a) && a@ == b
            } else {
                r == Err::<[u8; 16], Error>(Error::Structure)
            },
            _ => r == Err::<[u8; 16], Error>(Error::Structure),
        },
{
    let b = match v.as_bytes() {
        Some(b) => b,
        None => return Err(Error::Structure),
    };
    if b.len() != 16 {
        return Err(Error::Structure);
    }
    Ok(to_array16(b))
}

fn fixed32(v: &Value) -> (r: Result<[u8; 32], Error>)
    ensures
        match v@ {
            Cbor::Bytes(b) => if b.len() == 32 {
                r matches Ok(a) && a@ == b
            } else {
                r == Err::<[u8; 32], Error>(Error::Structure)
            },
            _ => r == Err::<[u8; 32], Error>(Error::Structure),
        },
{
    let b = match v.as_bytes() {
        Some(b) => b,
        None => return Err(Error::Structure),
    };
    if b.len() != 32 {
        return Err(Error::Structure);
    }
    Ok(to_array32(b))
}

#[verifier::loop_isolation(false)]
fn prev_field(v: &Value) -> (r: Result<Vec<[u8; 32]>, Error>)
    ensures
        match prev_spec(v@) {
            Some(p) => r matches Ok(x) && digests(x@) == p,
            None => r == Err::<Vec<[u8; 32]>, Error>(Error::Structure),
        },
{
    let arr = match v.as_array() {
        Some(a) => a,
        None => return Err(Error::Structure),
    };
    let ghost items = model_seq(arr@);
    proof {
        lemma_model_seq(arr@);
    }
    let mut out: Vec<[u8; 32]> = Vec::new();
    let mut i: usize = 0;
    while i < arr.len()
        invariant
            0 <= i <= arr@.len(),
            items == model_seq(arr@),
            items.len() == arr@.len(),
            forall|j: int| 0 <= j < arr@.len() ==> #[trigger] items[j] == model(arr@[j]),
            out@.len() == i,
            forall|j: int| 0 <= j < i ==> (#[trigger] items[j]) is Bytes && items[j]->Bytes_0.len() == 32 && items[j]->Bytes_0 == out@[j]@,
        decreases arr@.len() - i,
    {
        let h = fixed32(&arr[i]);
        match h {
            Ok(h) => out.push(h),
            Err(e) => {
                assert(!(items[i as int] is Bytes && items[i as int]->Bytes_0.len() == 32));
                return Err(e);
            },
        }
        i += 1;
    }
    assert(digests(out@) =~= Seq::new(items.len(), |j: int| items[j]->Bytes_0));
    Ok(out)
}

#[verifier::loop_isolation(false)]
fn predicate_field(v: &Value) -> (r: Result<Vec<String>, Error>)
    ensures
        match predicate_spec(v@) {
            Some(p) => r matches Ok(x) && strings_view(x@) == p,
            None => r == Err::<Vec<String>, Error>(Error::Structure),
        },
{
    let arr = match v.as_array() {
        Some(a) => a,
        None => return Err(Error::Structure),
    };
    let ghost items = model_seq(arr@);
    proof {
        lemma_model_seq(arr@);
    }
    if arr.len() == 0 {
        return Err(Error::Structure);  // present-but-empty is vacuous
    }
    let mut out: Vec<String> = Vec::new();
    let mut i: usize = 0;
    while i < arr.len()
        invariant
            0 <= i <= arr@.len(),
            items == model_seq(arr@),
            items.len() == arr@.len(),
            forall|j: int| 0 <= j < arr@.len() ==> #[trigger] items[j] == model(arr@[j]),
            out@.len() == i,
            forall|j: int| 0 <= j < i ==> (#[trigger] items[j]) is Text && valid_entry_spec(items[j]->Text_0) && items[j]->Text_0 == out@[j]@,
        decreases arr@.len() - i,
    {
        let s = match arr[i].as_text() {
            Some(s) => s,
            None => {
                assert(!(items[i as int] is Text));
                return Err(Error::Structure);
            },
        };
        if !is_valid_entry(s) {
            assert(!valid_entry_spec(items[i as int]->Text_0));
            return Err(Error::Structure);
        }
        out.push(s.to_owned());
        i += 1;
    }
    assert(strings_view(out@) =~= Seq::new(items.len(), |j: int| items[j]->Text_0));
    Ok(out)
}

pub open spec fn opt_string_view(o: Option<String>) -> Option<Seq<char>> {
    match o {
        Some(s) => Some(s@),
        None => None,
    }
}

pub open spec fn opt_bytes16_view(o: Option<[u8; 16]>) -> Option<Seq<u8>> {
    match o {
        Some(s) => Some(s@),
        None => None,
    }
}

pub open spec fn opt_bytes32_view(o: Option<[u8; 32]>) -> Option<Seq<u8>> {
    match o {
        Some(s) => Some(s@),
        None => None,
    }
}

pub open spec fn opt_digests_view(o: Option<Vec<[u8; 32]>>) -> Option<Seq<Seq<u8>>> {
    match o {
        Some(s) => Some(digests(s@)),
        None => None,
    }
}

pub open spec fn opt_values_view(o: Option<&[Value]>) -> Option<Seq<Cbor>> {
    match o {
        Some(s) => Some(model_seq(s@)),
        None => None,
    }
}

/// V3: the claim is a CBOR map with exactly the keys of the claim, correct
/// types and lengths, and valid `claim_type` / `predicate` syntax. Unknown
/// keys are an unagreed field and are rejected.
#[verifier::loop_isolation(false)]
pub(crate) fn structure<'a>(claim: &'a Value) -> (r: Result<ClaimFields<'a>, Error>)
    ensures
        r matches Ok(f) ==> structure_spec(claim@) == Ok::<FieldsModel, Error>(f.model()),
        r matches Err(e) ==> structure_spec(claim@) == Err::<FieldsModel, Error>(e),
{
    let map = match claim.as_map() {
        Some(m) => m,
        None => return Err(Error::Structure),
    };
    let ghost pairs = model_pairs(map@);
    proof {
        lemma_model_pairs(map@);
    }
    let mut domain: Option<String> = None;
    let mut claim_type: Option<String> = None;
    let mut nonce: Option<[u8; 16]> = None;
    let mut payload_hash: Option<[u8; 32]> = None;
    let mut parties_raw: Option<&'a [Value]> = None;
    let mut prev: Option<Vec<[u8; 32]>> = None;
    let mut predicate: Option<Vec<String>> = None;
    let mut i: usize = 0;
    while i < map.len()
        invariant
            0 <= i <= map@.len(),
            pairs == model_pairs(map@),
            pairs.len() == map@.len(),
            forall|j: int|
                0 <= j < map@.len() ==> #[trigger] pairs[j] == (model(map@[j].0), model(map@[j].1)),
            scan_claim(pairs, 0, empty_claim_scan()) == scan_claim(
                pairs,
                i as int,
                ClaimScan {
                    domain: opt_string_view(domain),
                    claim_type: opt_string_view(claim_type),
                    nonce: opt_bytes16_view(nonce),
                    payload_hash: opt_bytes32_view(payload_hash),
                    parties: opt_values_view(parties_raw),
                    prev: opt_digests_view(prev),
                    predicate: opt_strings_view(predicate),
                },
            ),
        decreases map@.len() - i,
    {
        let k = &map[i].0;
        let v = &map[i].1;
        match k.as_int() {
            Some(1) => domain = Some(text(v)?),
            Some(2) => claim_type = Some(claim_type_field(v)?),
            Some(3) => nonce = Some(fixed16(v)?),
            Some(4) => payload_hash = Some(fixed32(v)?),
            Some(5) => {
                match v.as_array() {
                    Some(a) => parties_raw = Some(a),
                    None => return Err(Error::Structure),
                }
            },
            Some(6) => prev = Some(prev_field(v)?),
            Some(7) => predicate = Some(predicate_field(v)?),
            _ => return Err(Error::Structure),  // unknown / non-int key
        }
        i += 1;
    }
    // Duplicate keys cannot reach here from the canonical decoder, which
    // requires strictly ascending map keys.
    let domain = match domain {
        Some(x) => x,
        None => return Err(Error::Structure),
    };
    let claim_type = match claim_type {
        Some(x) => x,
        None => return Err(Error::Structure),
    };
    let nonce = match nonce {
        Some(x) => x,
        None => return Err(Error::Structure),
    };
    let payload_hash = match payload_hash {
        Some(x) => x,
        None => return Err(Error::Structure),
    };
    let prev = match prev {
        Some(x) => x,
        None => return Err(Error::Structure),
    };
    let parties_raw = match parties_raw {
        Some(x) => x,
        None => return Err(Error::Structure),
    };
    Ok(ClaimFields { domain, claim_type, nonce, payload_hash, prev, predicate, parties_raw })
}

proof fn lemma_scan_claim_errors(pairs: Seq<(Cbor, Cbor)>, i: int, st: ClaimScan)
    ensures
        scan_claim(pairs, i, st) matches Err(e) ==> e == Error::Structure,
    decreases pairs.len() - i,
{
    if 0 <= i < pairs.len() {
        let k = pairs[i].0;
        let v = pairs[i].1;
        if k == Cbor::Int(1) {
            if let Cbor::Text(t) = v {
                lemma_scan_claim_errors(pairs, i + 1, ClaimScan { domain: Some(t), ..st });
            }
        } else if k == Cbor::Int(2) {
            if let Cbor::Text(t) = v {
                lemma_scan_claim_errors(pairs, i + 1, ClaimScan { claim_type: Some(t), ..st });
            }
        } else if k == Cbor::Int(3) {
            if let Cbor::Bytes(b) = v {
                lemma_scan_claim_errors(pairs, i + 1, ClaimScan { nonce: Some(b), ..st });
            }
        } else if k == Cbor::Int(4) {
            if let Cbor::Bytes(b) = v {
                lemma_scan_claim_errors(pairs, i + 1, ClaimScan { payload_hash: Some(b), ..st });
            }
        } else if k == Cbor::Int(5) {
            if let Cbor::Array(items) = v {
                lemma_scan_claim_errors(pairs, i + 1, ClaimScan { parties: Some(items), ..st });
            }
        } else if k == Cbor::Int(6) {
            if let Some(p) = prev_spec(v) {
                lemma_scan_claim_errors(pairs, i + 1, ClaimScan { prev: Some(p), ..st });
            }
        } else if k == Cbor::Int(7) {
            if let Some(p) = predicate_spec(v) {
                lemma_scan_claim_errors(pairs, i + 1, ClaimScan { predicate: Some(p), ..st });
            }
        }
    }
}

/// V3 fails only with `E_STRUCTURE`.
pub proof fn lemma_structure_errors(c: Cbor)
    ensures
        structure_spec(c) matches Err(e) ==> e == Error::Structure,
{
    if let Cbor::Mapping(pairs) = c {
        lemma_scan_claim_errors(pairs, 0, empty_claim_scan());
    }
}

/// A character of the claim-type alphabet `[a-z0-9:/.-]`.
pub open spec fn claim_type_char(c: char) -> bool {
    ||| 'a' as u32 <= c as u32 <= 'z' as u32
    ||| '0' as u32 <= c as u32 <= '9' as u32
    ||| c == ':'
    ||| c == '/'
    ||| c == '.'
    ||| c == '-'
}

proof fn lemma_claim_type_utf8(t: Seq<char>)
    ensures
        (forall|i: int| 0 <= i < t.len() ==> claim_type_char(#[trigger] t[i])) ==> encode_utf8(t).len()
            == t.len(),
        (forall|i: int| 0 <= i < t.len() ==> claim_type_char(#[trigger] t[i])) <==> (forall|j: int|
            0 <= j < encode_utf8(t).len() ==> claim_type_byte(#[trigger] encode_utf8(t)[j])),
    decreases t.len(),
{
    if t.len() > 0 {
        let c = t[0];
        let s = c as u32;
        vstd::utf8::char_is_scalar(c);
        let rest = t.drop_first();
        lemma_claim_type_utf8(rest);
        let e = vstd::utf8::encode_scalar(s);
        let u = encode_utf8(t);
        assert(u == e + encode_utf8(rest));
        let all_t = forall|i: int| 0 <= i < t.len() ==> claim_type_char(#[trigger] t[i]);
        let all_rest = forall|i: int| 0 <= i < rest.len() ==> claim_type_char(#[trigger] rest[i]);
        let bytes_u = forall|j: int| 0 <= j < u.len() ==> claim_type_byte(#[trigger] u[j]);
        let bytes_rest = forall|j: int|
            0 <= j < encode_utf8(rest).len() ==> claim_type_byte(#[trigger] encode_utf8(rest)[j]);
        assert(all_t <==> claim_type_char(c) && all_rest) by {
            if claim_type_char(c) && all_rest {
                assert forall|i: int| 0 <= i < t.len() implies claim_type_char(#[trigger] t[i]) by {
                    if i > 0 {
                        assert(t[i] == rest[i - 1]);
                    }
                }
            }
            if all_t {
                assert forall|i: int| 0 <= i < rest.len() implies claim_type_char(#[trigger] rest[i]) by {
                    assert(rest[i] == t[i + 1]);
                }
            }
        }
        if vstd::utf8::has_width_1_encoding(s) {
            let b = vstd::utf8::leading_byte_width_1(s);
            assert(b as u32 == s) by (bit_vector)
                requires
                    s <= 0x7f,
                    b == (s & 0x7f) as u8,
            ;
            assert(e.len() == 1 && e[0] == b);
            assert(claim_type_char(c) <==> claim_type_byte(b)) by {
                assert('a' as u32 == 0x61 && 'z' as u32 == 0x7a && '0' as u32 == 0x30 && '9' as u32 == 0x39);
                assert(':' as u32 == 0x3a && '/' as u32 == 0x2f && '.' as u32 == 0x2e && '-' as u32 == 0x2d);
                vstd::utf8::char_u32_cast(c, s);
                vstd::utf8::char_u32_cast(':', 0x3a);
                vstd::utf8::char_u32_cast('/', 0x2f);
                vstd::utf8::char_u32_cast('.', 0x2e);
                vstd::utf8::char_u32_cast('-', 0x2d);
            }
            assert(bytes_u <==> claim_type_byte(b) && bytes_rest) by {
                if claim_type_byte(b) && bytes_rest {
                    assert forall|j: int| 0 <= j < u.len() implies claim_type_byte(#[trigger] u[j]) by {
                        if j > 0 {
                            assert(u[j] == encode_utf8(rest)[j - 1]);
                        }
                    }
                }
                if bytes_u {
                    assert(u[0] == b);
                    assert forall|j: int| 0 <= j < encode_utf8(rest).len() implies claim_type_byte(
                        #[trigger] encode_utf8(rest)[j],
                    ) by {
                        assert(encode_utf8(rest)[j] == u[j + 1]);
                    }
                }
            }
        } else {
            assert(e.len() >= 1 && e[0] >= 0xc0) by {
                if vstd::utf8::has_width_2_encoding(s) {
                    let b = vstd::utf8::leading_byte_width_2(s);
                    assert(b >= 0xc0) by (bit_vector)
                        requires
                            b == 0xC0 | ((s >> 6) & 0x1F) as u8,
                    ;
                } else if vstd::utf8::has_width_3_encoding(s) {
                    let b = vstd::utf8::leading_byte_width_3(s);
                    assert(b >= 0xc0) by (bit_vector)
                        requires
                            b == 0xE0 | ((s >> 12) & 0x0F) as u8,
                    ;
                } else {
                    let b = vstd::utf8::leading_byte_width_4(s);
                    assert(b >= 0xc0) by (bit_vector)
                        requires
                            b == 0xF0 | ((s >> 18) & 0x7) as u8,
                    ;
                }
            }
            assert(u[0] == e[0]);
            assert(!claim_type_byte(u[0]));
            assert(!claim_type_char(c));
        }
    }
}

/// The claim-type rule (V3), read over characters: a claim type is valid
/// exactly when it is a non-empty string of at most 64 characters, each
/// from `[a-z0-9:/.-]`. (Every allowed character is one UTF-8 byte, so the
/// 64-byte bound is a 64-character bound.)
pub proof fn law_claim_type_alphabet(t: Seq<char>)
    ensures
        claim_type_ok(t) <==> 0 < t.len() <= 64 && forall|i: int| 0 <= i < t.len() ==> claim_type_char(#[trigger] t[i]),
{
    lemma_claim_type_utf8(t);
}

} // verus!
