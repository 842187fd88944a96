//! COSE_Sign1 (RFC 9052 §4.2, CBOR tag 18): the single-signer envelope
//! shared by receipts, chain heads, checkpoints and witness co-signatures.
//!
//! Here there is exactly one signer, the Sig_structure context is
//! "Signature1", and the body protected header is the signer's. Bodies are
//! maps with small integer keys, read by [`read_body`].
use crate::bytes::to_array32;
use crate::cbor::{decode_canonical, decode_canonical_spec, enc, encode, lemma_model_pairs, lemma_model_seq, model_pairs, model_seq, Cbor, Value};
use crate::envelope::empty_map_spec;
use crate::error::Error;
use crate::sig::{verify, verify_spec, Alg};
use vstd::prelude::*;

verus! {

/// A parsed COSE_Sign1 message.
pub struct Sign1 {
    /// Decoded protected header (canonical-validated).
    pub protected: Value,
    /// Raw protected-header bytes (the signed `bstr`).
    pub protected_bytes: Vec<u8>,
    /// Body bytes (the receipt, head, checkpoint or co-signature body).
    pub payload: Vec<u8>,
    /// Raw signature bytes.
    pub signature: Vec<u8>,
}

/// The content of a COSE_Sign1 message.
pub ghost struct Sign1Model {
    pub protected: Cbor,
    pub protected_bytes: Seq<u8>,
    pub payload: Seq<u8>,
    pub signature: Seq<u8>,
}

impl View for Sign1 {
    type V = Sign1Model;

    open spec fn view(&self) -> Sign1Model {
        Sign1Model {
            protected: self.protected@,
            protected_bytes: self.protected_bytes@,
            payload: self.payload@,
            signature: self.signature@,
        }
    }
}

/// What [`parse`] returns: a canonical tag-18 array of protected bytes
/// (themselves canonical), an empty unprotected map, and byte-string payload
/// and signature. Shape problems are `E_DECODE`.
pub open spec fn parse_spec(bytes: Seq<u8>) -> Result<Sign1Model, Error> {
    match decode_canonical_spec(bytes) {
        Err(e) => Err(e),
        Ok(top) => match top {
            Cbor::Tag(t, inner) => if t != 18 {
                Err(Error::Decode)
            } else {
                match *inner {
                    Cbor::Array(items) => if items.len() != 4 {
                        Err(Error::Decode)
                    } else if !(items[0] is Bytes) || !(items[2] is Bytes) || !(items[3] is Bytes) {
                        Err(Error::Decode)
                    } else if !empty_map_spec(items[1]) {
                        Err(Error::Decode)
                    } else {
                        match decode_canonical_spec(items[0]->Bytes_0) {
                            Err(e) => Err(e),
                            Ok(p) => Ok(
                                Sign1Model {
                                    protected: p,
                                    protected_bytes: items[0]->Bytes_0,
                                    payload: items[2]->Bytes_0,
                                    signature: items[3]->Bytes_0,
                                },
                            ),
                        }
                    },
                    _ => Err(Error::Decode),
                }
            },
            _ => Err(Error::Decode),
        },
    }
}

fn pop_value(v: &mut Vec<Value>) -> (r: Value)
    requires
        old(v)@.len() > 0,
    ensures
        r == old(v)@.last(),
        final(v)@ == old(v)@.drop_last(),
{
    match v.pop() {
        Some(x) => x,
        None => {
            proof {
                assert(false);
            }
            Value::Null
        },
    }
}

fn take_bstr(v: Value) -> (r: Result<Vec<u8>, Error>)
    ensures
        match v {
            Value::Bytes(b) => r == Ok::<Vec<u8>, Error>(b),
            _ => r == Err::<Vec<u8>, Error>(Error::Decode),
        },
{
    match v {
        Value::Bytes(b) => Ok(b),
        _ => Err(Error::Decode),
    }
}

/// Parse a tagged COSE_Sign1: tag 18 wrapping `[protected, unprotected,
/// payload, signature]`, with `protected` a canonical `bstr .cbor`,
/// `unprotected` an empty map, and `payload` a non-nil `bstr`. All shape
/// problems are `E_DECODE`; non-canonical bytes (recursively, into the
/// protected header) are `E_NONCANONICAL`.
pub fn parse(bytes: &[u8]) -> (r: Result<Sign1, Error>)
    ensures
        r matches Ok(s) ==> parse_spec(bytes@) == Ok::<Sign1Model, Error>(s@),
        r matches Err(e) ==> parse_spec(bytes@) == Err::<Sign1Model, Error>(e),
{
    let top = decode_canonical(bytes)?;
    let ghost top_model = top@;
    let inner = match top {
        Value::Tag(18, inner) => *inner,
        _ => return Err(Error::Decode),
    };
    assert(top_model == Cbor::Tag(18, Box::new(inner@)));
    let mut items = match inner {
        Value::Array(items) => items,
        _ => {
            assert(!(inner@ is Array));
            return Err(Error::Decode);
        },
    };
    proof {
        lemma_model_seq(items@);
    }
    if items.len() != 4 {
        return Err(Error::Decode);
    }
    let ghost items0 = items@;
    let signature_value = pop_value(&mut items);
    let payload_value = pop_value(&mut items);
    let unprotected = pop_value(&mut items);
    let protected_value = pop_value(&mut items);
    assert(protected_value == items0[0]);
    assert(unprotected == items0[1]);
    assert(payload_value == items0[2]);
    assert(signature_value == items0[3]);
    let protected_bytes = take_bstr(protected_value)?;
    let payload = take_bstr(payload_value)?;
    let signature = take_bstr(signature_value)?;
    if !crate::envelope::is_empty_map(&unprotected) {
        return Err(Error::Decode);  // unprotected must be empty
    }
    let protected = decode_canonical(protected_bytes.as_slice())?;  // recursive canonical
    Ok(Sign1 { protected, protected_bytes, payload, signature })
}

/// The COSE_Sign1 `Sig_structure`: context "Signature1", the protected
/// bytes, empty external_aad, and the payload.
pub open spec fn sig1_structure_spec(protected_bytes: Seq<u8>, payload: Seq<u8>) -> Seq<u8> {
    enc(
        Cbor::Array(
            seq![
                Cbor::Text("Signature1"@),
                Cbor::Bytes(protected_bytes),
                Cbor::Bytes(Seq::empty()),
                Cbor::Bytes(payload),
            ],
        ),
    )
}

/// Whether the message's signature verifies under `pubkey` for `alg`.
pub open spec fn signature_ok_spec(s: Sign1Model, alg: Alg, pubkey: Seq<u8>) -> bool {
    verify_spec(alg, pubkey, sig1_structure_spec(s.protected_bytes, s.payload), s.signature)
}

/// True if the signature verifies over the COSE_Sign1 Sig_structure (context
/// `"Signature1"`, empty `external_aad`) under `pubkey`. The caller maps a
/// `false` to its own signature error.
pub fn signature_ok(s: &Sign1, alg: Alg, pubkey: &[u8]) -> (r: bool)
    ensures
        r == signature_ok_spec(s@, alg, pubkey@),
{
    let mut items: Vec<Value> = Vec::new();
    items.push(Value::Text("Signature1".to_owned()));
    items.push(Value::Bytes(crate::bytes::to_vec(s.protected_bytes.as_slice())));
    items.push(Value::Bytes(Vec::new()));  // external_aad must be empty
    items.push(Value::Bytes(crate::bytes::to_vec(s.payload.as_slice())));
    let ghost items_view = items@;
    let structure = Value::Array(items);
    proof {
        lemma_model_seq(items_view);
        assert(model_seq(items_view) =~= seq![
            Cbor::Text("Signature1"@),
            Cbor::Bytes(s.protected_bytes@),
            Cbor::Bytes(Seq::empty()),
            Cbor::Bytes(s.payload@),
        ]);
    }
    let sig_structure = encode(&structure);
    verify(alg, pubkey, sig_structure.as_slice(), s.signature.as_slice()).is_ok()
}

/// Reading `{1: alg, 4: kid}` entries from index `i`.
pub open spec fn scan_alg_kid(
    pairs: Seq<(Cbor, Cbor)>,
    i: int,
    alg: Option<int>,
    kid: Option<Seq<u8>>,
    err: Error,
) -> Result<(Option<int>, Option<Seq<u8>>), Error>
    decreases pairs.len() - i,
{
    if i < 0 || i >= pairs.len() {
        Ok((alg, kid))
    } else if pairs[i].0 == Cbor::Int(1) {
        match pairs[i].1 {
            Cbor::Int(a) => scan_alg_kid(pairs, i + 1, Some(a), kid, err),
            _ => Err(err),
        }
    } else if pairs[i].0 == Cbor::Int(4) {
        match pairs[i].1 {
            Cbor::Bytes(b) => scan_alg_kid(pairs, i + 1, alg, Some(b), err),
            _ => Err(err),
        }
    } else {
        Err(err)
    }
}

/// What [`protected_alg_kid`] returns: a protected header of exactly the two
/// keys {1: alg (integer), 4: kid (bytes)}, or `err`.
pub open spec fn alg_kid_spec(protected: Cbor, err: Error) -> Result<(int, Seq<u8>), Error> {
    match protected {
        Cbor::Mapping(pairs) => if pairs.len() != 2 {
            Err(err)
        } else {
            match scan_alg_kid(pairs, 0, None, None, err) {
                Err(e) => Err(e),
                Ok((alg, kid)) => if alg is None || kid is None {
                    Err(err)
                } else {
                    Ok((alg->0, kid->0))
                },
            }
        },
        _ => Err(err),
    }
}

pub proof fn lemma_scan_alg_kid_err(
    pairs: Seq<(Cbor, Cbor)>,
    i: int,
    alg: Option<int>,
    kid: Option<Seq<u8>>,
    err: Error,
)
    ensures
        scan_alg_kid(pairs, i, alg, kid, err) is Err ==> scan_alg_kid(pairs, i, alg, kid, err)
            == Err::<(Option<int>, Option<Seq<u8>>), Error>(err),
    decreases pairs.len() - i,
{
    if 0 <= i < pairs.len() {
        match pairs[i].1 {
            Cbor::Int(a) => {
                lemma_scan_alg_kid_err(pairs, i + 1, Some(a), kid, err);
            },
            Cbor::Bytes(b) => {
                lemma_scan_alg_kid_err(pairs, i + 1, alg, Some(b), err);
            },
            _ => {},
        }
    }
}

/// Read the protected header's `{1: alg, 4: kid}`: exactly those two keys,
/// the COSE_Sign1 profile for receipts, heads and checkpoints. `struct_err`
/// is the caller's structure error.
#[verifier::loop_isolation(false)]
pub fn protected_alg_kid(s: &Sign1, struct_err: Error) -> (r: Result<(i128, Vec<u8>), Error>)
    ensures
        r matches Ok(x) ==> alg_kid_spec(s@.protected, struct_err) == Ok::<(int, Seq<u8>), Error>(
            (x.0 as int, x.1@),
        ),
        r matches Err(e) ==> alg_kid_spec(s@.protected, struct_err) == Err::<(int, Seq<u8>), Error>(e),
{
    let map = match s.protected.as_map() {
        Some(m) => m,
        None => return Err(struct_err),
    };
    let ghost pairs = model_pairs(map@);
    proof {
        lemma_model_pairs(map@);
    }
    if map.len() != 2 {
        return Err(struct_err);
    }
    let mut alg: Option<i128> = None;
    let mut kid: Option<Vec<u8>> = None;
    let mut i: usize = 0;
    while i < map.len()
        invariant
            0 <= i <= map@.len(),
            scan_alg_kid(pairs, 0, None, None, struct_err) == scan_alg_kid(
                pairs,
                i as int,
                match alg {
                    Some(a) => Some(a as int),
                    None => None,
                },
                match kid {
                    Some(k) => Some(k@),
                    None => None,
                },
                struct_err,
            ),
        decreases map@.len() - i,
    {
        let k = &map[i].0;
        let v = &map[i].1;
        match k.as_int() {
            Some(1) => {
                match v.as_int() {
                    Some(a) => alg = Some(a),
                    None => return Err(struct_err),
                }
            },
            Some(4) => {
                match v.as_bytes() {
                    Some(b) => kid = Some(crate::bytes::to_vec(b)),
                    None => return Err(struct_err),
                }
            },
            _ => return Err(struct_err),
        }
        i += 1;
    }
    let alg = match alg {
        Some(a) => a,
        None => return Err(struct_err),
    };
    let kid = match kid {
        Some(k) => k,
        None => return Err(struct_err),
    };
    Ok((alg, kid))
}

// ---------------------------------------------------------------------------
// Signed bodies
// ---------------------------------------------------------------------------

/// The type a body entry must have.
#[derive(Clone, Copy)]
pub enum FieldKind {
    /// A text string.
    Text,
    /// A 32-byte byte string.
    Bytes32,
    /// An integer.
    Int,
    /// Any value (checked by its consumer).
    Any,
}

pub open spec fn kind_ok(k: FieldKind, v: Cbor) -> bool {
    match k {
        FieldKind::Text => v is Text,
        FieldKind::Bytes32 => v is Bytes && v->Bytes_0.len() == 32,
        FieldKind::Int => v is Int,
        FieldKind::Any => true,
    }
}

/// An optional value, where present, has the kind asked for.
pub open spec fn opt_kind_ok(k: FieldKind, o: Option<Cbor>) -> bool {
    match o {
        Some(v) => kind_ok(k, v),
        None => true,
    }
}

/// Reading body entries from index `i`: the key must be an integer `n` with
/// `1 <= n <= kinds.len()` and the value of kind `kinds[n - 1]`; `st[n - 1]`
/// holds the latest value read for key `n`. Anything else is `err`.
pub open spec fn scan_body(
    pairs: Seq<(Cbor, Cbor)>,
    i: int,
    kinds: Seq<FieldKind>,
    st: Seq<Option<Cbor>>,
    err: Error,
) -> Result<Seq<Option<Cbor>>, Error>
    decreases pairs.len() - i,
{
    if i < 0 || i >= pairs.len() {
        Ok(st)
    } else {
        let k = pairs[i].0;
        if k is Int && 1 <= k->Int_0 <= kinds.len() && kind_ok(kinds[k->Int_0 - 1], pairs[i].1) {
            scan_body(pairs, i + 1, kinds, st.update(k->Int_0 - 1, Some(pairs[i].1)), err)
        } else {
            Err(err)
        }
    }
}

/// What [`read_body`] returns for a body value: for each key `1..=n`, its
/// value if present, or `err` if the body is not such a map.
pub open spec fn body_spec(body: Cbor, kinds: Seq<FieldKind>, err: Error) -> Result<
    Seq<Option<Cbor>>,
    Error,
> {
    match body {
        Cbor::Mapping(pairs) => scan_body(pairs, 0, kinds, Seq::new(kinds.len(), |j: int| None::<Cbor>), err),
        _ => Err(err),
    }
}

pub proof fn lemma_scan_body(
    pairs: Seq<(Cbor, Cbor)>,
    i: int,
    kinds: Seq<FieldKind>,
    st: Seq<Option<Cbor>>,
    err: Error,
)
    requires
        st.len() == kinds.len(),
        forall|j: int| 0 <= j < st.len() ==> opt_kind_ok(kinds[j], #[trigger] st[j]),
    ensures
        scan_body(pairs, i, kinds, st, err) is Err ==> scan_body(pairs, i, kinds, st, err) == Err::<
            Seq<Option<Cbor>>,
            Error,
        >(err),
        scan_body(pairs, i, kinds, st, err) matches Ok(r) ==> r.len() == kinds.len() && forall|j: int|
            0 <= j < r.len() ==> opt_kind_ok(kinds[j], #[trigger] r[j]),
    decreases pairs.len() - i,
{
    if 0 <= i < pairs.len() {
        let k = pairs[i].0;
        if k is Int && 1 <= k->Int_0 <= kinds.len() && kind_ok(kinds[k->Int_0 - 1], pairs[i].1) {
            let st2 = st.update(k->Int_0 - 1, Some(pairs[i].1));
            assert forall|j: int| 0 <= j < st2.len() implies opt_kind_ok(kinds[j], #[trigger] st2[j]) by {
                if j != k->Int_0 - 1 {
                    assert(st2[j] == st[j]);
                }
            }
            lemma_scan_body(pairs, i + 1, kinds, st2, err);
        }
    }
}

/// Every failure of [`body_spec`] is `err`, and each value it returns has the
/// kind asked for.
pub proof fn lemma_body_spec(body: Cbor, kinds: Seq<FieldKind>, err: Error)
    ensures
        body_spec(body, kinds, err) is Err ==> body_spec(body, kinds, err) == Err::<
            Seq<Option<Cbor>>,
            Error,
        >(err),
        body_spec(body, kinds, err) matches Ok(r) ==> r.len() == kinds.len() && forall|j: int|
            0 <= j < r.len() ==> opt_kind_ok(kinds[j], #[trigger] r[j]),
{
    if let Cbor::Mapping(pairs) = body {
        lemma_scan_body(pairs, 0, kinds, Seq::new(kinds.len(), |j: int| None::<Cbor>), err);
    }
}

pub open spec fn opt_refs_view(s: Seq<Option<&Value>>) -> Seq<Option<Cbor>> {
    Seq::new(
        s.len(),
        |j: int|
            match s[j] {
                Some(v) => Some(v@),
                None => None,
            },
    )
}

/// Read a signed body: a map whose keys are `1..=kinds.len()`, each holding
/// a value of its kind. Returns, for each key, the value given for it (the
/// last, were a key repeated), or `err`.
#[verifier::loop_isolation(false)]
pub(crate) fn read_body<'a>(body: &'a Value, kinds: &[FieldKind], err: Error) -> (r: Result<
    Vec<Option<&'a Value>>,
    Error,
>)
    ensures
        r matches Ok(v) ==> body_spec(body@, kinds@, err) == Ok::<Seq<Option<Cbor>>, Error>(
            opt_refs_view(v@),
        ),
        r matches Err(e) ==> body_spec(body@, kinds@, err) == Err::<Seq<Option<Cbor>>, Error>(e),
{
    let map = match body.as_map() {
        Some(m) => m,
        None => return Err(err),
    };
    let ghost pairs = model_pairs(map@);
    proof {
        lemma_model_pairs(map@);
    }
    let mut st: Vec<Option<&'a Value>> = Vec::new();
    let mut j: usize = 0;
    while j < kinds.len()
        invariant
            0 <= j <= kinds@.len(),
            st@.len() == j,
            forall|x: int| 0 <= x < j ==> (#[trigger] st@[x]) is None,
        decreases kinds@.len() - j,
    {
        st.push(None);
        j += 1;
    }
    assert(opt_refs_view(st@) =~= Seq::new(kinds@.len(), |j: int| None::<Cbor>));
    let mut i: usize = 0;
    while i < map.len()
        invariant
            0 <= i <= map@.len(),
            st@.len() == kinds@.len(),
            body_spec(body@, kinds@, err) == scan_body(pairs, i as int, kinds@, opt_refs_view(st@), err),
        decreases map@.len() - i,
    {
        let k = &map[i].0;
        let v = &map[i].1;
        let n = match k.as_int() {
            Some(n) => n,
            None => return Err(err),
        };
        if n < 1 || n > kinds.len() as i128 {
            return Err(err);
        }
        let idx = (n - 1) as usize;
        let ok = match kinds[idx] {
            FieldKind::Text => v.as_text().is_some(),
            FieldKind::Bytes32 => match v.as_bytes() {
                Some(b) => b.len() == 32,
                None => false,
            },
            FieldKind::Int => v.as_int().is_some(),
            FieldKind::Any => true,
        };
        if !ok {
            return Err(err);
        }
        let ghost before = st@;
        st.set(idx, Some(v));
        proof {
            assert(opt_refs_view(st@) =~= opt_refs_view(before).update(idx as int, Some(v@)));
        }
        i += 1;
    }
    Ok(st)
}

/// The text of a text value.
pub(crate) fn text_of(v: &Value) -> (r: String)
    requires
        v@ is Text,
    ensures
        r@ == v@->Text_0,
{
    match v {
        Value::Text(t) => t.as_str().to_owned(),
        _ => {
            proof {
                assert(false);
            }
            String::new()
        },
    }
}

/// The bytes of a 32-byte byte-string value.
pub(crate) fn bytes32_of(v: &Value) -> (r: [u8; 32])
    requires
        v@ is Bytes && v@->Bytes_0.len() == 32,
    ensures
        r@ == v@->Bytes_0,
{
    match v {
        Value::Bytes(b) => to_array32(b.as_slice()),
        _ => {
            proof {
                assert(false);
            }
            [0u8; 32]
        },
    }
}

/// The integer of an integer value.
pub(crate) fn int_of(v: &Value) -> (r: i128)
    requires
        v@ is Int,
    ensures
        r as int == v@->Int_0,
{
    match v {
        Value::Int(i) => *i,
        _ => {
            proof {
                assert(false);
            }
            0
        },
    }
}

/// The value of the last entry at or after index `i` whose key is the
/// integer `key`, or `d` if there is none.
pub open spec fn last_value(pairs: Seq<(Cbor, Cbor)>, i: int, key: int, d: Option<Cbor>) -> Option<Cbor>
    decreases pairs.len() - i,
{
    if i < 0 || i >= pairs.len() {
        d
    } else {
        last_value(
            pairs,
            i + 1,
            key,
            if pairs[i].0 == Cbor::Int(key) {
                Some(pairs[i].1)
            } else {
                d
            },
        )
    }
}

/// A successful body scan holds, for each key, the last value given for it,
/// and every entry it read has a key in range with a value of its kind.
proof fn lemma_scan_body_values(
    pairs: Seq<(Cbor, Cbor)>,
    i: int,
    kinds: Seq<FieldKind>,
    st: Seq<Option<Cbor>>,
    err: Error,
)
    requires
        0 <= i,
        st.len() == kinds.len(),
    ensures
        scan_body(pairs, i, kinds, st, err) matches Ok(f) ==> {
            &&& forall|j: int| 0 <= j < kinds.len() ==> #[trigger] f[j] == last_value(pairs, i, j + 1, st[j])
            &&& forall|t: int|
                i <= t < pairs.len() ==> (#[trigger] pairs[t]).0 is Int && 1 <= pairs[t].0->Int_0 <= kinds.len()
                    && kind_ok(kinds[pairs[t].0->Int_0 - 1], pairs[t].1)
        },
    decreases pairs.len() - i,
{
    if i < pairs.len() {
        let k = pairs[i].0;
        if k is Int && 1 <= k->Int_0 <= kinds.len() && kind_ok(kinds[k->Int_0 - 1], pairs[i].1) {
            let st2 = st.update(k->Int_0 - 1, Some(pairs[i].1));
            lemma_scan_body_values(pairs, i + 1, kinds, st2, err);
            if let Ok(f) = scan_body(pairs, i, kinds, st, err) {
                assert forall|j: int| 0 <= j < kinds.len() implies #[trigger] f[j] == last_value(pairs, i, j + 1, st[j]) by {
                    assert(f[j] == last_value(pairs, i + 1, j + 1, st2[j]));
                }
            }
        }
    }
}

/// Where the last value for `key` was read from the entries, some entry
/// has that key and value.
proof fn lemma_last_value_found(pairs: Seq<(Cbor, Cbor)>, i: int, key: int, d: Option<Cbor>)
    requires
        0 <= i,
    ensures
        last_value(pairs, i, key, d) matches Some(v) ==> d == Some(v) || exists|t: int|
            i <= t < pairs.len() && #[trigger] pairs[t] == (Cbor::Int(key), v),
    decreases pairs.len() - i,
{
    if i < pairs.len() {
        let d2 = if pairs[i].0 == Cbor::Int(key) {
            Some(pairs[i].1)
        } else {
            d
        };
        lemma_last_value_found(pairs, i + 1, key, d2);
        if let Some(v) = last_value(pairs, i, key, d) {
            if d2 == Some(v) && pairs[i].0 == Cbor::Int(key) {
                assert(pairs[i] == (Cbor::Int(key), v));
            }
        }
    }
}

/// Reading one body with two layouts: when both reads succeed, a key known
/// to both gets the same value, and a value read under the second layout
/// for a key the first does not know is impossible.
pub proof fn lemma_bodies_agree(body: Cbor, kinds_1: Seq<FieldKind>, kinds_2: Seq<FieldKind>, err_1: Error, err_2: Error)
    requires
        body_spec(body, kinds_1, err_1) is Ok,
        body_spec(body, kinds_2, err_2) is Ok,
    ensures
        forall|j: int|
            0 <= j < kinds_1.len() && j < kinds_2.len() ==> #[trigger] body_spec(body, kinds_1, err_1)->Ok_0[j]
                == body_spec(body, kinds_2, err_2)->Ok_0[j],
        forall|j: int|
            kinds_1.len() <= j < kinds_2.len() ==> (#[trigger] body_spec(body, kinds_2, err_2)->Ok_0[j]) is None,
        forall|j: int|
            0 <= j < kinds_1.len() && j < kinds_2.len() ==> (#[trigger] body_spec(body, kinds_2, err_2)->Ok_0[j] matches Some(
                v,
            ) ==> kind_ok(kinds_1[j], v)),
{
    let pairs = body->Mapping_0;
    let none1 = Seq::new(kinds_1.len(), |j: int| None::<Cbor>);
    let none2 = Seq::new(kinds_2.len(), |j: int| None::<Cbor>);
    lemma_scan_body_values(pairs, 0, kinds_1, none1, err_1);
    lemma_scan_body_values(pairs, 0, kinds_2, none2, err_2);
    let f1 = body_spec(body, kinds_1, err_1)->Ok_0;
    let f2 = body_spec(body, kinds_2, err_2)->Ok_0;
    assert forall|j: int| 0 <= j < kinds_1.len() && j < kinds_2.len() implies #[trigger] f1[j] == f2[j] by {
        assert(f1[j] == last_value(pairs, 0, j + 1, none1[j]));
        assert(f2[j] == last_value(pairs, 0, j + 1, none2[j]));
    }
    assert forall|j: int| kinds_1.len() <= j < kinds_2.len() implies (#[trigger] f2[j]) is None by {
        assert(f2[j] == last_value(pairs, 0, j + 1, none2[j]));
        lemma_last_value_found(pairs, 0, j + 1, None);
        if let Some(v) = f2[j] {
            let t = choose|t: int| 0 <= t < pairs.len() && #[trigger] pairs[t] == (Cbor::Int(j + 1), v);
            assert(1 <= pairs[t].0->Int_0 <= kinds_1.len());
        }
    }
    assert forall|j: int|
        0 <= j < kinds_1.len() && j < kinds_2.len() implies (#[trigger] f2[j] matches Some(v) ==> kind_ok(
        kinds_1[j],
        v,
    )) by {
        assert(f2[j] == last_value(pairs, 0, j + 1, none2[j]));
        lemma_last_value_found(pairs, 0, j + 1, None);
        if let Some(v) = f2[j] {
            let t = choose|t: int| 0 <= t < pairs.len() && #[trigger] pairs[t] == (Cbor::Int(j + 1), v);
            assert(kind_ok(kinds_1[pairs[t].0->Int_0 - 1], pairs[t].1));
        }
    }
}

} // verus!
