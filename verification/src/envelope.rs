//! The COSE_Sign envelope.
//!
//! Parsing is the V1 step: decode the tagged COSE_Sign structure, and decode
//! every `bstr .cbor` protected header in turn so non-canonical inner bytes
//! are caught. Profile content (the content type, empty unprotected maps,
//! non-nil payload) is the V2 step, kept separate so the error codes
//! (E_DECODE for shape, E_ENVELOPE for profile) stay distinct.
use crate::bytes::bytes_eq;
use crate::cbor::{decode_canonical, decode_canonical_spec, lemma_model_seq, model, model_seq, Cbor, Value};
use crate::cbor_laws::{decode_error, law_decode_errors};
use crate::error::Error;
use vstd::prelude::*;

verus! {

/// One `COSE_Signature`.
pub struct SignatureEntry {
    /// Raw protected-header bytes (the signed `bstr`).
    pub protected_bytes: Vec<u8>,
    /// Decoded protected header (canonical-validated at V1).
    pub protected: Value,
    /// The signature's unprotected header (must be empty; checked at V7).
    pub unprotected: Value,
    /// Raw signature bytes.
    pub signature: Vec<u8>,
}

/// The content of one `COSE_Signature`.
pub ghost struct SigEntryModel {
    pub protected_bytes: Seq<u8>,
    pub protected: Cbor,
    pub unprotected: Cbor,
    pub signature: Seq<u8>,
}

impl View for SignatureEntry {
    type V = SigEntryModel;

    open spec fn view(&self) -> SigEntryModel {
        SigEntryModel {
            protected_bytes: self.protected_bytes@,
            protected: self.protected@,
            unprotected: self.unprotected@,
            signature: self.signature@,
        }
    }
}

/// A parsed COSE_Sign envelope (V1 output; not yet profile-checked).
pub struct Envelope {
    /// Raw body protected-header bytes (the signed `bstr`).
    pub body_protected_bytes: Vec<u8>,
    /// Decoded body protected header (canonical-validated at V1).
    pub body_protected: Value,
    /// Body unprotected header (must be empty; checked at V2).
    pub body_unprotected: Value,
    /// Payload bytes, or `None` if the CBOR `null` (detached), rejected at V2.
    pub payload: Option<Vec<u8>>,
    /// The signatures.
    pub signatures: Vec<SignatureEntry>,
}

/// The content of a parsed envelope.
pub ghost struct EnvelopeModel {
    pub body_protected_bytes: Seq<u8>,
    pub body_protected: Cbor,
    pub body_unprotected: Cbor,
    pub payload: Option<Seq<u8>>,
    pub signatures: Seq<SigEntryModel>,
}

pub open spec fn sig_entries_view(s: Seq<SignatureEntry>) -> Seq<SigEntryModel> {
    Seq::new(s.len(), |i: int| s[i]@)
}

impl View for Envelope {
    type V = EnvelopeModel;

    open spec fn view(&self) -> EnvelopeModel {
        EnvelopeModel {
            body_protected_bytes: self.body_protected_bytes@,
            body_protected: self.body_protected@,
            body_unprotected: self.body_unprotected@,
            payload: match self.payload {
                Some(p) => Some(p@),
                None => None,
            },
            signatures: sig_entries_view(self.signatures@),
        }
    }
}

/// What parsing one `COSE_Signature` gives: a three-element array of
/// protected bytes, unprotected header and signature bytes, with the
/// protected bytes themselves canonical CBOR.
pub open spec fn parse_signature_spec(c: Cbor) -> Result<SigEntryModel, Error> {
    match c {
        Cbor::Array(items) => if items.len() != 3 {
            Err(Error::Decode)
        } else if !(items[0] is Bytes) || !(items[2] is Bytes) {
            Err(Error::Decode)
        } else {
            match decode_canonical_spec(items[0]->Bytes_0) {
                Err(e) => Err(e),
                Ok(p) => Ok(
                    SigEntryModel {
                        protected_bytes: items[0]->Bytes_0,
                        protected: p,
                        unprotected: items[1],
                        signature: items[2]->Bytes_0,
                    },
                ),
            }
        },
        _ => Err(Error::Decode),
    }
}

/// Parsing a sequence of signatures in order; the first failure wins.
pub open spec fn parse_signatures(s: Seq<Cbor>) -> Result<Seq<SigEntryModel>, Error>
    decreases s.len(),
{
    if s.len() == 0 {
        Ok(Seq::empty())
    } else {
        match parse_signature_spec(s[0]) {
            Err(e) => Err(e),
            Ok(e) => match parse_signatures(s.drop_first()) {
                Err(x) => Err(x),
                Ok(rest) => Ok(seq![e] + rest),
            },
        }
    }
}

/// What [`parse`] returns: a canonical tag-98 four-element array of body
/// protected bytes (themselves canonical), unprotected header, byte-string or
/// null payload, and an array of signatures.
pub open spec fn parse_spec(bytes: Seq<u8>) -> Result<EnvelopeModel, Error> {
    match decode_canonical_spec(bytes) {
        Err(e) => Err(e),
        Ok(top) => match top {
            Cbor::Tag(t, inner) => if t != 98 {
                Err(Error::Decode)
            } else {
                match *inner {
                    Cbor::Array(items) => if items.len() != 4 {
                        Err(Error::Decode)
                    } else if !(items[0] is Bytes) {
                        Err(Error::Decode)
                    } else if !(items[2] is Bytes || items[2] is Null) {
                        Err(Error::Decode)
                    } else {
                        match decode_canonical_spec(items[0]->Bytes_0) {
                            Err(e) => Err(e),
                            Ok(bp) => match items[3] {
                                Cbor::Array(sigs) => match parse_signatures(sigs) {
                                    Err(e) => Err(e),
                                    Ok(ss) => Ok(
                                        EnvelopeModel {
                                            body_protected_bytes: items[0]->Bytes_0,
                                            body_protected: bp,
                                            body_unprotected: items[1],
                                            payload: if items[2] is Bytes {
                                                Some(items[2]->Bytes_0)
                                            } else {
                                                None
                                            },
                                            signatures: ss,
                                        },
                                    ),
                                },
                                _ => Err(Error::Decode),
                            },
                        }
                    },
                    _ => Err(Error::Decode),
                }
            },
            _ => Err(Error::Decode),
        },
    }
}

fn pop_value(v: &mut Vec<Value>) -> (r: Value)
    requires
        old(v)@.len() > 0,
    ensures
        r == old(v)@.last(),
        final(v)@ == old(v)@.drop_last(),
{
    match v.pop() {
        Some(x) => x,
        None => {
            proof {
                assert(false);
            }
            Value::Null
        },
    }
}

fn take_bstr(v: Value) -> (r: Result<Vec<u8>, Error>)
    ensures
        match v {
            Value::Bytes(b) => r == Ok::<Vec<u8>, Error>(b),
            _ => r == Err::<Vec<u8>, Error>(Error::Decode),
        },
{
    match v {
        Value::Bytes(b) => Ok(b),
        _ => Err(Error::Decode),
    }
}

/// V1: decode the envelope and every nested `bstr .cbor` protected header.
/// Gross shape errors are `E_DECODE`; non-canonical bytes are `E_NONCANONICAL`.
#[verifier::loop_isolation(false)]
pub fn parse(envelope_bytes: &[u8]) -> (r: Result<Envelope, Error>)
    ensures
        r matches Ok(e) ==> parse_spec(envelope_bytes@) == Ok::<EnvelopeModel, Error>(e@),
        r matches Err(e) ==> parse_spec(envelope_bytes@) == Err::<EnvelopeModel, Error>(e),
{
    let top = decode_canonical(envelope_bytes)?;
    // Outer structure must be tag 98 wrapping a 4-element array.
    let ghost top_model = top@;
    let inner = match top {
        Value::Tag(98, inner) => *inner,
        _ => return Err(Error::Decode),
    };
    assert(top_model == Cbor::Tag(98, Box::new(inner@)));
    let mut items = match inner {
        Value::Array(items) => items,
        _ => {
            assert(!(inner@ is Array));
            return Err(Error::Decode);
        },
    };
    if items.len() != 4 {
        proof {
            lemma_model_seq(items@);
        }
        return Err(Error::Decode);
    }
    let ghost items0 = items@;
    proof {
        lemma_model_seq(items@);
    }
    let signatures_value = pop_value(&mut items);
    let payload_value = pop_value(&mut items);
    let body_unprotected = pop_value(&mut items);
    let body_protected_value = pop_value(&mut items);
    assert(body_protected_value == items0[0]);
    assert(body_unprotected == items0[1]);
    assert(payload_value == items0[2]);
    assert(signatures_value == items0[3]);
    let body_protected_bytes = take_bstr(body_protected_value)?;
    let payload = match payload_value {
        Value::Bytes(b) => Some(b),
        Value::Null => None,
        _ => return Err(Error::Decode),
    };
    // Recursively validate the body protected header bytes.
    let body_protected = decode_canonical(body_protected_bytes.as_slice())?;
    let mut sig_array = match signatures_value {
        Value::Array(a) => a,
        _ => return Err(Error::Decode),
    };
    let ghost sigs0 = model_seq(sig_array@);
    proof {
        lemma_model_seq(sig_array@);
        assert(sigs0.skip(0) =~= sigs0);
    }
    let mut signatures: Vec<SignatureEntry> = Vec::new();
    while sig_array.len() > 0
        invariant
            sigs0.len() == signatures@.len() + sig_array@.len(),
            model_seq(sig_array@) == sigs0.skip(signatures@.len() as int),
            parse_signatures(sigs0) == match parse_signatures(model_seq(sig_array@)) {
                Err(x) => Err(x),
                Ok(rest) => Ok(sig_entries_view(signatures@) + rest),
            },
        decreases sig_array@.len(),
    {
        let ghost before = sig_array@;
        let sig = sig_array.remove(0);
        proof {
            lemma_model_seq(before);
            lemma_model_seq(sig_array@);
            assert(sig_array@ =~= before.drop_first());
            assert(model_seq(sig_array@) =~= model_seq(before).drop_first());
            assert(model_seq(before)[0] == model(sig));
            assert(sigs0.skip(signatures@.len() + 1 as int) =~= sigs0.skip(signatures@.len() as int).drop_first());
        }
        let entry = parse_signature(sig)?;
        proof {
            let rest = parse_signatures(model_seq(sig_array@));
            if rest is Ok {
                assert(sig_entries_view(signatures@.push(entry)) + rest->Ok_0 =~= sig_entries_view(
                    signatures@,
                ) + (seq![entry@] + rest->Ok_0));
            }
        }
        signatures.push(entry);
    }
    proof {
        assert(model_seq(sig_array@) =~= Seq::<Cbor>::empty());
        assert(sig_entries_view(signatures@) + Seq::<SigEntryModel>::empty() =~= sig_entries_view(
            signatures@,
        ));
    }
    Ok(Envelope { body_protected_bytes, body_protected, body_unprotected, payload, signatures })
}

fn parse_signature(sig: Value) -> (r: Result<SignatureEntry, Error>)
    ensures
        r matches Ok(e) ==> parse_signature_spec(sig@) == Ok::<SigEntryModel, Error>(e@),
        r matches Err(e) ==> parse_signature_spec(sig@) == Err::<SigEntryModel, Error>(e),
{
    let mut items = match sig {
        Value::Array(items) => items,
        _ => return Err(Error::Decode),
    };
    proof {
        lemma_model_seq(items@);
    }
    if items.len() != 3 {
        return Err(Error::Decode);
    }
    let ghost items0 = items@;
    let signature_value = pop_value(&mut items);
    let unprotected = pop_value(&mut items);
    let protected_value = pop_value(&mut items);
    assert(protected_value == items0[0]);
    assert(unprotected == items0[1]);
    assert(signature_value == items0[2]);
    let protected_bytes = take_bstr(protected_value)?;
    let signature = take_bstr(signature_value)?;
    // Recursively validate the per-signature protected header bytes.
    let protected = decode_canonical(protected_bytes.as_slice())?;
    Ok(SignatureEntry { protected_bytes, protected, unprotected, signature })
}

/// The body protected header the profile mandates: `{3: content-type}`.
pub const CONTENT_TYPE: &'static str = "application/bcf-claim+cbor";

/// `header` is exactly `{3: "application/bcf-claim+cbor"}`.
pub open spec fn body_protected_ok_spec(header: Cbor) -> bool {
    match header {
        Cbor::Mapping(pairs) => pairs.len() == 1 && pairs[0].0 == Cbor::Int(3) && pairs[0].1
            == Cbor::Text(CONTENT_TYPE@),
        _ => false,
    }
}

/// `header` is an empty map.
pub open spec fn empty_map_spec(header: Cbor) -> bool {
    match header {
        Cbor::Mapping(pairs) => pairs.len() == 0,
        _ => false,
    }
}

/// True if `header` is exactly `{3: "application/bcf-claim+cbor"}`.
pub fn is_body_protected_ok(header: &Value) -> (r: bool)
    ensures
        r == body_protected_ok_spec(header@),
{
    let m = match header.as_map() {
        Some(m) => m,
        None => return false,
    };
    proof {
        crate::cbor::lemma_model_pairs(m@);
    }
    if m.len() != 1 {
        return false;
    }
    match m[0].0.as_int() {
        Some(3) => {},
        _ => return false,
    }
    match m[0].1.as_text() {
        Some(t) => {
            let eq = bytes_eq(t.as_bytes(), CONTENT_TYPE.as_bytes());
            proof {
                vstd::utf8::encode_utf8_decode_utf8(t@);
                vstd::utf8::encode_utf8_decode_utf8(CONTENT_TYPE@);
            }
            eq
        },
        None => false,
    }
}

/// True if `header` is an empty map.
pub fn is_empty_map(header: &Value) -> (r: bool)
    ensures
        r == empty_map_spec(header@),
{
    match header.as_map() {
        Some(m) => {
            proof {
                crate::cbor::lemma_model_pairs(m@);
            }
            m.len() == 0
        },
        None => false,
    }
}

proof fn lemma_parse_signatures_errors(sigs: Seq<Cbor>)
    ensures
        parse_signatures(sigs) matches Err(e) ==> decode_error(e),
    decreases sigs.len(),
{
    if sigs.len() > 0 {
        if let Cbor::Array(items) = sigs[0] {
            if items.len() == 3 && items[0] is Bytes {
                law_decode_errors(items[0]->Bytes_0);
            }
        }
        lemma_parse_signatures_errors(sigs.drop_first());
    }
}

/// V1 fails only with the decoding codes.
pub proof fn lemma_parse_errors(bytes: Seq<u8>)
    ensures
        parse_spec(bytes) matches Err(e) ==> decode_error(e),
{
    law_decode_errors(bytes);
    if let Ok(Cbor::Tag(t, inner)) = decode_canonical_spec(bytes) {
        if let Cbor::Array(items) = *inner {
            if items.len() == 4 && items[0] is Bytes {
                law_decode_errors(items[0]->Bytes_0);
                if let Cbor::Array(sigs) = items[3] {
                    lemma_parse_signatures_errors(sigs);
                }
            }
        }
    }
}

} // verus!
