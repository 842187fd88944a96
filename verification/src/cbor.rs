//! Deterministic CBOR (RFC 8949 §4.2.1), scoped to the BCF profile.
//!
//! The canonicality guarantee is re-encode-and-compare: decode an item,
//! re-encode it canonically, and reject if the bytes differ. The supported
//! value space is what the profile uses: integers, byte and text strings,
//! arrays, maps, `null`, and the one outer tag. Floats and indefinite lengths
//! are rejected.
//!
//! The mathematical content of a value is [`Cbor`]; [`enc`] is the canonical
//! encoding of such content and [`parse_value`] is the decoder's behaviour on
//! a byte sequence. The laws relating them are in `cbor_laws`.
use crate::bytes::{bytes_eq, bytes_lt, extend_bytes, lex_lt};
use crate::error::Error;
use vstd::prelude::*;
use vstd::utf8::{decode_utf8, encode_utf8, valid_utf8};

verus! {

/// Maximum CBOR nesting depth accepted by the decoder.
pub const MAX_DEPTH: usize = 16;

/// The mathematical content of a CBOR item in the profile's value space.
pub ghost enum Cbor {
    Int(int),
    Bytes(Seq<u8>),
    Text(Seq<char>),
    Array(Seq<Cbor>),
    Mapping(Seq<(Cbor, Cbor)>),
    Null,
    Tag(u64, Box<Cbor>),
}

/// A decoded CBOR value, restricted to the BCF profile's value space.
#[derive(Debug, PartialEq, Eq)]
pub enum Value {
    /// Major type 0/1.
    Int(i128),
    /// Major type 2.
    Bytes(Vec<u8>),
    /// Major type 3 (validated UTF-8).
    Text(String),
    /// Major type 4.
    Array(Vec<Value>),
    /// Major type 5, key order preserved as decoded.
    Mapping(Vec<(Value, Value)>),
    /// Major type 7, value 22.
    Null,
    /// Major type 6.
    Tag(u64, Box<Value>),
}

impl Value {
    /// Borrow as a byte string, or `None` if a different type.
    pub fn as_bytes(&self) -> (r: Option<&[u8]>)
        ensures
            match *self {
                Value::Bytes(b) => r matches Some(s) && s@ == b@,
                _ => r is None,
            },
    {
        match self {
            Value::Bytes(b) => Some(b.as_slice()),
            _ => None,
        }
    }

    /// Borrow as text, or `None` if a different type.
    pub fn as_text(&self) -> (r: Option<&str>)
        ensures
            match *self {
                Value::Text(t) => r matches Some(s) && s@ == t@,
                _ => r is None,
            },
    {
        match self {
            Value::Text(t) => Some(t.as_str()),
            _ => None,
        }
    }

    /// Copy as an integer, or `None` if a different type.
    pub fn as_int(&self) -> (r: Option<i128>)
        ensures
            r == match *self {
                Value::Int(i) => Some(i),
                _ => None,
            },
    {
        match self {
            Value::Int(i) => Some(*i),
            _ => None,
        }
    }

    /// Borrow as an array, or `None` if a different type.
    pub fn as_array(&self) -> (r: Option<&[Value]>)
        ensures
            match *self {
                Value::Array(a) => r matches Some(s) && s@ == a@,
                _ => r is None,
            },
    {
        match self {
            Value::Array(a) => Some(a.as_slice()),
            _ => None,
        }
    }

    /// Borrow as a map, or `None` if a different type.
    pub fn as_map(&self) -> (r: Option<&[(Value, Value)]>)
        ensures
            match *self {
                Value::Mapping(m) => r matches Some(s) && s@ == m@,
                _ => r is None,
            },
    {
        match self {
            Value::Mapping(m) => Some(m.as_slice()),
            _ => None,
        }
    }
}

/// A copy of a value with the same content.
fn clone_value(v: &Value) -> (r: Value)
    ensures
        r@ == v@,
    decreases v,
{
    match v {
        Value::Int(i) => Value::Int(*i),
        Value::Bytes(b) => Value::Bytes(crate::bytes::to_vec(b.as_slice())),
        Value::Text(t) => Value::Text(t.as_str().to_owned()),
        Value::Array(items) => {
            let mut out: Vec<Value> = Vec::new();
            let mut i: usize = 0;
            while i < items.len()
                invariant
                    0 <= i <= items@.len(),
                    *v == Value::Array(*items),
                    model_seq(out@) == model_seq(items@.take(i as int)),
                decreases items@.len() - i,
            {
                proof {
                    assert(decreases_to!(*v => (*v)->Array_0));
                    assert(decreases_to!(*items => items@));
                    assert(decreases_to!(items@ => items@[i as int]));
                }
                let c = clone_value(&items[i]);
                let ghost before = out@;
                out.push(c);
                proof {
                    assert(out@.drop_last() =~= before);
                    assert(items@.take(i + 1).drop_last() =~= items@.take(i as int));
                }
                i += 1;
            }
            assert(items@.take(i as int) =~= items@);
            Value::Array(out)
        },
        Value::Mapping(pairs) => {
            let mut out: Vec<(Value, Value)> = Vec::new();
            let mut i: usize = 0;
            while i < pairs.len()
                invariant
                    0 <= i <= pairs@.len(),
                    *v == Value::Mapping(*pairs),
                    model_pairs(out@) == model_pairs(pairs@.take(i as int)),
                decreases pairs@.len() - i,
            {
                proof {
                    assert(decreases_to!(*v => (*v)->Mapping_0));
                    assert(decreases_to!(*pairs => pairs@));
                    assert(decreases_to!(pairs@ => pairs@[i as int]));
                    assert(decreases_to!(pairs@[i as int] => pairs@[i as int].0));
                    assert(decreases_to!(pairs@[i as int] => pairs@[i as int].1));
                }
                let k = clone_value(&pairs[i].0);
                let w = clone_value(&pairs[i].1);
                let ghost before = out@;
                out.push((k, w));
                proof {
                    assert(out@.drop_last() =~= before);
                    assert(pairs@.take(i + 1).drop_last() =~= pairs@.take(i as int));
                }
                i += 1;
            }
            assert(pairs@.take(i as int) =~= pairs@);
            Value::Mapping(out)
        },
        Value::Null => Value::Null,
        Value::Tag(t, inner) => Value::Tag(*t, Box::new(clone_value(inner))),
    }
}

impl Clone for Value {
    /// A copy with the same content.
    fn clone(&self) -> (r: Self)
        ensures
            r@ == self@,
    {
        clone_value(self)
    }
}

pub open spec fn model(v: Value) -> Cbor
    decreases v,
{
    match v {
        Value::Int(i) => Cbor::Int(i as int),
        Value::Bytes(b) => Cbor::Bytes(b@),
        Value::Text(t) => Cbor::Text(t@),
        Value::Array(items) => Cbor::Array(model_seq(items@)),
        Value::Mapping(pairs) => Cbor::Mapping(model_pairs(pairs@)),
        Value::Null => Cbor::Null,
        Value::Tag(t, inner) => Cbor::Tag(t, Box::new(model(*inner))),
    }
}

pub open spec fn model_seq(s: Seq<Value>) -> Seq<Cbor>
    decreases s,
{
    if s.len() == 0 {
        Seq::empty()
    } else {
        model_seq(s.drop_last()).push(model(s.last()))
    }
}

pub open spec fn model_pairs(s: Seq<(Value, Value)>) -> Seq<(Cbor, Cbor)>
    decreases s,
{
    if s.len() == 0 {
        Seq::empty()
    } else {
        model_pairs(s.drop_last()).push((model(s.last().0), model(s.last().1)))
    }
}

impl View for Value {
    type V = Cbor;

    open spec fn view(&self) -> Cbor {
        model(*self)
    }
}

pub proof fn lemma_model_seq(s: Seq<Value>)
    ensures
        model_seq(s).len() == s.len(),
        forall|i: int| 0 <= i < s.len() ==> #[trigger] model_seq(s)[i] == model(s[i]),
    decreases s.len(),
{
    if s.len() > 0 {
        lemma_model_seq(s.drop_last());
    }
}

pub proof fn lemma_model_pairs(s: Seq<(Value, Value)>)
    ensures
        model_pairs(s).len() == s.len(),
        forall|i: int|
            0 <= i < s.len() ==> #[trigger] model_pairs(s)[i] == (model(s[i].0), model(s[i].1)),
    decreases s.len(),
{
    if s.len() > 0 {
        lemma_model_pairs(s.drop_last());
    }
}

// ---------------------------------------------------------------------------
// The canonical encoding
// ---------------------------------------------------------------------------

/// `x` as `n` big-endian bytes (the low `n` bytes of `x`).
pub open spec fn be_bytes(x: nat, n: nat) -> Seq<u8>
    decreases n,
{
    if n == 0 {
        Seq::empty()
    } else {
        be_bytes(x / 256, (n - 1) as nat).push((x % 256) as u8)
    }
}

/// The big-endian value of a byte sequence.
pub open spec fn be_value(s: Seq<u8>) -> nat
    decreases s.len(),
{
    if s.len() == 0 {
        0
    } else {
        be_value(s.drop_last()) * 256 + s.last() as nat
    }
}

/// A CBOR head: major type in the top three bits, argument in shortest form.
pub open spec fn head_bytes(major: u8, arg: u64) -> Seq<u8> {
    let mb = major as int * 32;
    if arg < 24 {
        seq![(mb + arg) as u8]
    } else if arg < 0x100 {
        seq![(mb + 24) as u8, arg as u8]
    } else if arg < 0x10000 {
        seq![(mb + 25) as u8] + be_bytes(arg as nat, 2)
    } else if arg < 0x1_0000_0000 {
        seq![(mb + 26) as u8] + be_bytes(arg as nat, 4)
    } else {
        seq![(mb + 27) as u8] + be_bytes(arg as nat, 8)
    }
}

/// The canonical (RFC 8949 §4.2.1) encoding of a value. Map entries are
/// emitted in ascending bytewise order of their encoded keys; entries with
/// equal encoded keys keep their relative order.
pub open spec fn enc(c: Cbor) -> Seq<u8>
    decreases c,
{
    match c {
        Cbor::Int(i) => if i >= 0 {
            head_bytes(0, i as u64)
        } else {
            head_bytes(1, (-1 - i) as u64)
        },
        Cbor::Bytes(b) => head_bytes(2, b.len() as u64) + b,
        Cbor::Text(t) => head_bytes(3, encode_utf8(t).len() as u64) + encode_utf8(t),
        Cbor::Array(items) => head_bytes(4, items.len() as u64) + enc_seq(items),
        Cbor::Mapping(pairs) => head_bytes(5, pairs.len() as u64) + concat_pairs(
            sort_pairs(enc_pairs(pairs)),
        ),
        Cbor::Null => seq![0xf6u8],
        Cbor::Tag(t, inner) => head_bytes(6, t) + enc(*inner),
    }
}

/// The concatenated encodings of a sequence of items.
pub open spec fn enc_seq(s: Seq<Cbor>) -> Seq<u8>
    decreases s,
{
    if s.len() == 0 {
        Seq::empty()
    } else {
        enc_seq(s.drop_last()) + enc(s.last())
    }
}

/// The encoded (key, value) of each map entry, in entry order.
pub open spec fn enc_pairs(s: Seq<(Cbor, Cbor)>) -> Seq<(Seq<u8>, Seq<u8>)>
    decreases s,
{
    if s.len() == 0 {
        Seq::empty()
    } else {
        enc_pairs(s.drop_last()).push((enc(s.last().0), enc(s.last().1)))
    }
}

/// Insert `x` after every entry whose key is not greater than `x`'s key.
pub open spec fn insert_sorted(s: Seq<(Seq<u8>, Seq<u8>)>, x: (Seq<u8>, Seq<u8>)) -> Seq<
    (Seq<u8>, Seq<u8>),
>
    decreases s.len(),
{
    if s.len() == 0 {
        seq![x]
    } else if lex_lt(x.0, s.last().0) {
        insert_sorted(s.drop_last(), x).push(s.last())
    } else {
        s.push(x)
    }
}

/// Stable sort of encoded entries by their encoded key.
pub open spec fn sort_pairs(s: Seq<(Seq<u8>, Seq<u8>)>) -> Seq<(Seq<u8>, Seq<u8>)>
    decreases s.len(),
{
    if s.len() == 0 {
        s
    } else {
        insert_sorted(sort_pairs(s.drop_last()), s.last())
    }
}

pub open spec fn concat_pairs(s: Seq<(Seq<u8>, Seq<u8>)>) -> Seq<u8>
    decreases s.len(),
{
    if s.len() == 0 {
        Seq::empty()
    } else {
        concat_pairs(s.drop_last()) + s.last().0 + s.last().1
    }
}

// ---------------------------------------------------------------------------
// The decoder's behaviour
// ---------------------------------------------------------------------------

/// Reading the argument of a head whose additional information is `ai`,
/// starting at `pos`: every length encoding is accepted, shortest or not.
pub open spec fn parse_arg(buf: Seq<u8>, pos: int, ai: u8) -> Result<(u64, int), Error> {
    if ai < 24 {
        Ok((ai as u64, pos))
    } else if ai == 24 {
        if 0 <= pos < buf.len() {
            Ok((buf[pos] as u64, pos + 1))
        } else {
            Err(Error::Decode)
        }
    } else if 25 <= ai <= 27 {
        let n: int = if ai == 25 {
            2
        } else if ai == 26 {
            4
        } else {
            8
        };
        if 0 <= pos && pos + n <= buf.len() {
            Ok((be_value(buf.subrange(pos, pos + n)) as u64, pos + n))
        } else {
            Err(Error::Decode)
        }
    } else {
        Err(Error::Decode)
    }
}

/// Prefix the items of a successful parse with `pre`.
pub open spec fn prefixed<T>(pre: Seq<T>, r: Result<(Seq<T>, int), Error>) -> Result<
    (Seq<T>, int),
    Error,
> {
    match r {
        Ok((s, p)) => Ok((pre + s, p)),
        Err(e) => Err(e),
    }
}

/// The decoder reading one item at `pos`, nested `depth` levels deep:
/// the item and the position after it, or the error it stops with.
pub open spec fn parse_value(buf: Seq<u8>, pos: int, depth: int) -> Result<(Cbor, int), Error>
    decreases MAX_DEPTH + 1 - depth, 1int, 0int,
{
    if depth > MAX_DEPTH {
        Err(Error::Decode)
    } else if !(0 <= pos < buf.len()) {
        Err(Error::Decode)
    } else {
        let initial = buf[pos];
        let major = initial / 32;
        let ai = initial % 32;
        let p1 = pos + 1;
        if ai == 31 {
            if 2 <= major <= 5 {
                Err(Error::Noncanonical)
            } else {
                Err(Error::Decode)
            }
        } else if 28 <= ai <= 30 {
            Err(Error::Decode)
        } else if major == 7 {
            if ai == 22 {
                Ok((Cbor::Null, p1))
            } else if 25 <= ai <= 27 {
                Err(Error::Noncanonical)
            } else {
                Err(Error::Decode)
            }
        } else if major == 6 && depth != 0 {
            Err(Error::Noncanonical)
        } else {
            match parse_arg(buf, p1, ai) {
                Err(e) => Err(e),
                Ok((a, p2)) => {
                    if major == 0 {
                        Ok((Cbor::Int(a as int), p2))
                    } else if major == 1 {
                        Ok((Cbor::Int(-1 - a as int), p2))
                    } else if major == 2 || major == 3 {
                        let n = (a as usize) as int;
                        if p2 + n > buf.len() {
                            Err(Error::Decode)
                        } else {
                            let b = buf.subrange(p2, p2 + n);
                            if major == 2 {
                                Ok((Cbor::Bytes(b), p2 + n))
                            } else if valid_utf8(b) {
                                Ok((Cbor::Text(decode_utf8(b)), p2 + n))
                            } else {
                                Err(Error::Decode)
                            }
                        }
                    } else if major == 4 {
                        match parse_items(buf, p2, depth + 1, (a as usize) as nat) {
                            Ok((items, p3)) => Ok((Cbor::Array(items), p3)),
                            Err(e) => Err(e),
                        }
                    } else if major == 5 {
                        match parse_pairs(buf, p2, depth + 1, (a as usize) as nat, None) {
                            Ok((pairs, p3)) => Ok((Cbor::Mapping(pairs), p3)),
                            Err(e) => Err(e),
                        }
                    } else {
                        match parse_value(buf, p2, depth + 1) {
                            Ok((inner, p3)) => Ok((Cbor::Tag(a, Box::new(inner)), p3)),
                            Err(e) => Err(e),
                        }
                    }
                },
            }
        }
    }
}

/// The decoder reading `n` array items at `pos`, each at nesting `depth`.
pub open spec fn parse_items(buf: Seq<u8>, pos: int, depth: int, n: nat) -> Result<
    (Seq<Cbor>, int),
    Error,
>
    decreases MAX_DEPTH + 2 - depth, 0int, n,
{
    if depth > MAX_DEPTH + 1 {
        Err(Error::Decode)
    } else if n == 0 {
        Ok((Seq::empty(), pos))
    } else {
        match parse_value(buf, pos, depth) {
            Err(e) => Err(e),
            Ok((v, p1)) => prefixed(seq![v], parse_items(buf, p1, depth, (n - 1) as nat)),
        }
    }
}

/// The decoder reading `n` map entries at `pos`, each key and value at
/// nesting `depth`; `prev` is the encoding of the previous key, if any.
/// Keys must be strictly ascending by encoding.
pub open spec fn parse_pairs(
    buf: Seq<u8>,
    pos: int,
    depth: int,
    n: nat,
    prev: Option<Seq<u8>>,
) -> Result<(Seq<(Cbor, Cbor)>, int), Error>
    decreases MAX_DEPTH + 2 - depth, 0int, n,
{
    if depth > MAX_DEPTH + 1 {
        Err(Error::Decode)
    } else if n == 0 {
        Ok((Seq::empty(), pos))
    } else {
        match parse_value(buf, pos, depth) {
            Err(e) => Err(e),
            Ok((k, p1)) => match parse_value(buf, p1, depth) {
                Err(e) => Err(e),
                Ok((v, p2)) => {
                    let kb = enc(k);
                    if prev is Some && !lex_lt(prev->0, kb) {
                        Err(Error::Noncanonical)
                    } else {
                        prefixed(seq![(k, v)], parse_pairs(buf, p2, depth, (n - 1) as nat, Some(kb)))
                    }
                },
            },
        }
    }
}

/// What [`decode_canonical`] returns for `input`.
pub open spec fn decode_canonical_spec(input: Seq<u8>) -> Result<Cbor, Error> {
    match parse_value(input, 0, 0) {
        Err(e) => Err(e),
        Ok((v, p)) => if p != input.len() {
            Err(Error::Decode)
        } else if enc(v) != input {
            Err(Error::Noncanonical)
        } else {
            Ok(v)
        },
    }
}

// ---------------------------------------------------------------------------
// Encoder
// ---------------------------------------------------------------------------

/// The byte views of encoded map entries.
pub open spec fn pairs_view(v: Seq<(Vec<u8>, Vec<u8>)>) -> Seq<(Seq<u8>, Seq<u8>)> {
    Seq::new(v.len(), |i: int| (v[i].0@, v[i].1@))
}

pub proof fn lemma_enc_pairs(s: Seq<(Cbor, Cbor)>)
    ensures
        enc_pairs(s).len() == s.len(),
        forall|i: int|
            0 <= i < s.len() ==> #[trigger] enc_pairs(s)[i] == (enc(s[i].0), enc(s[i].1)),
    decreases s.len(),
{
    if s.len() > 0 {
        lemma_enc_pairs(s.drop_last());
    }
}

/// Inserting after the last entry whose key is not greater than the new key.
pub proof fn lemma_insert_sorted_at(s: Seq<(Seq<u8>, Seq<u8>)>, x: (Seq<u8>, Seq<u8>), j: int)
    requires
        0 <= j <= s.len(),
        forall|k: int| j <= k < s.len() ==> lex_lt(x.0, #[trigger] s[k].0),
        j == 0 || !lex_lt(x.0, s[j - 1].0),
    ensures
        insert_sorted(s, x) == s.insert(j, x),
    decreases s.len(),
{
    if s.len() == 0 {
        assert(s.insert(j, x) =~= seq![x]);
    } else if j == s.len() {
        assert(s.insert(j, x) =~= s.push(x));
    } else {
        assert(lex_lt(x.0, s.last().0));
        lemma_insert_sorted_at(s.drop_last(), x, j);
        assert(s.drop_last().insert(j, x).push(s.last()) =~= s.insert(j, x));
    }
}

fn push_be(out: &mut Vec<u8>, x: u64, n: usize)
    requires
        n <= 8,
    ensures
        final(out)@ == old(out)@ + be_bytes(x as nat, n as nat),
    decreases n,
{
    if n > 0 {
        push_be(out, x / 256, n - 1);
        out.push((x % 256) as u8);
        assert(be_bytes(x as nat, n as nat) == be_bytes((x / 256) as nat, (n - 1) as nat).push(
            (x % 256) as u8,
        ));
    } else {
        assert(old(out)@ + be_bytes(x as nat, 0) =~= old(out)@);
    }
}

/// Emit a CBOR head: major type in the top 3 bits, argument in shortest form.
fn head(major: u8, arg: u64, out: &mut Vec<u8>)
    requires
        major < 8,
    ensures
        final(out)@ == old(out)@ + head_bytes(major, arg),
{
    let mb: u8 = major * 32;
    if arg < 24 {
        out.push(mb + arg as u8);
        assert(old(out)@.push((mb + arg) as u8) =~= old(out)@ + head_bytes(major, arg));
    } else if arg <= 0xff {
        out.push(mb + 24);
        out.push(arg as u8);
        assert(old(out)@.push((mb + 24) as u8).push(arg as u8) =~= old(out)@ + head_bytes(
            major,
            arg,
        ));
    } else if arg <= 0xffff {
        out.push(mb + 25);
        let ghost mid = out@;
        push_be(out, arg, 2);
        assert(mid + be_bytes(arg as nat, 2) =~= old(out)@ + head_bytes(major, arg));
    } else if arg <= 0xffff_ffff {
        out.push(mb + 26);
        let ghost mid = out@;
        push_be(out, arg, 4);
        assert(mid + be_bytes(arg as nat, 4) =~= old(out)@ + head_bytes(major, arg));
    } else {
        out.push(mb + 27);
        let ghost mid = out@;
        push_be(out, arg, 8);
        assert(mid + be_bytes(arg as nat, 8) =~= old(out)@ + head_bytes(major, arg));
    }
}

/// Canonically encode a value per RFC 8949 §4.2.1.
pub fn encode(value: &Value) -> (r: Vec<u8>)
    ensures
        r@ == enc(value@),
    decreases value, 1nat,
{
    let mut out = Vec::new();
    encode_into(value, &mut out);
    assert(Seq::<u8>::empty() + enc(value@) =~= enc(value@));
    out
}

fn encode_into(value: &Value, out: &mut Vec<u8>)
    ensures
        final(out)@ == old(out)@ + enc(value@),
    decreases value, 0nat,
{
    match value {
        Value::Int(i) => {
            if *i >= 0 {
                head(0, *i as u64, out);
            } else {
                head(1, (-1 - *i) as u64, out);
            }
        },
        Value::Bytes(b) => {
            head(2, b.len() as u64, out);
            extend_bytes(out, b.as_slice());
            assert(old(out)@ + head_bytes(2, b@.len() as u64) + b@ =~= old(out)@ + enc(value@));
        },
        Value::Text(t) => {
            let bytes = t.as_str().as_bytes();
            head(3, bytes.len() as u64, out);
            extend_bytes(out, bytes);
            assert(old(out)@ + head_bytes(3, bytes@.len() as u64) + bytes@ =~= old(out)@ + enc(
                value@,
            ));
        },
        Value::Array(items) => {
            let ghost ms = model_seq(items@);
            proof {
                lemma_model_seq(items@);
            }
            head(4, items.len() as u64, out);
            let ghost start = out@;
            let mut i: usize = 0;
            while i < items.len()
                invariant
                    0 <= i <= items@.len(),
                    ms == model_seq(items@),
                    *value == Value::Array(*items),
                    ms.len() == items@.len(),
                    forall|j: int| 0 <= j < items@.len() ==> #[trigger] ms[j] == model(items@[j]),
                    out@ == start + enc_seq(ms.take(i as int)),
                decreases items@.len() - i,
            {
                proof {
                    assert(decreases_to!(*value => (*value)->Array_0));
                    assert(decreases_to!(*items => items@));
                    assert(decreases_to!(items@ => items@[i as int]));
                }
                encode_into(&items[i], out);
                proof {
                    assert(ms.take(i + 1).drop_last() =~= ms.take(i as int));
                    assert(enc_seq(ms.take(i + 1)) == enc_seq(ms.take(i as int)) + enc(ms[i as int]));
                    assert(start + enc_seq(ms.take(i as int)) + enc(ms[i as int]) =~= start
                        + enc_seq(ms.take(i + 1)));
                }
                i += 1;
            }
            assert(ms.take(i as int) =~= ms);
            assert(old(out)@ + head_bytes(4, items@.len() as u64) + enc_seq(ms) =~= old(out)@
                + enc(value@));
        },
        Value::Mapping(pairs) => {
            let ghost mp = model_pairs(pairs@);
            let ghost e = enc_pairs(mp);
            proof {
                lemma_model_pairs(pairs@);
                lemma_enc_pairs(mp);
            }
            // Canonical order: a stable sort of the entries by encoded key.
            let mut sorted: Vec<(Vec<u8>, Vec<u8>)> = Vec::new();
            let mut i: usize = 0;
            while i < pairs.len()
                invariant
                    0 <= i <= pairs@.len(),
                    mp == model_pairs(pairs@),
                    e == enc_pairs(mp),
                    *value == Value::Mapping(*pairs),
                    mp.len() == pairs@.len(),
                    e.len() == pairs@.len(),
                    forall|j: int|
                        0 <= j < pairs@.len() ==> #[trigger] mp[j] == (
                            model(pairs@[j].0),
                            model(pairs@[j].1),
                        ),
                    forall|j: int|
                        0 <= j < pairs@.len() ==> #[trigger] e[j] == (enc(mp[j].0), enc(mp[j].1)),
                    pairs_view(sorted@) == sort_pairs(e.take(i as int)),
                decreases pairs@.len() - i,
            {
                proof {
                    assert(decreases_to!(*value => (*value)->Mapping_0));
                    assert(decreases_to!(*pairs => pairs@));
                    assert(decreases_to!(pairs@ => pairs@[i as int]));
                    assert(decreases_to!(pairs@[i as int] => pairs@[i as int].0));
                    assert(decreases_to!(pairs@[i as int] => pairs@[i as int].1));
                }
                let k = encode(&pairs[i].0);
                let v = encode(&pairs[i].1);
                let ghost pv = pairs_view(sorted@);
                let mut j = sorted.len();
                while j > 0 && bytes_lt(k.as_slice(), sorted[j - 1].0.as_slice())
                    invariant
                        0 <= j <= sorted@.len(),
                        pv == pairs_view(sorted@),
                        forall|m: int| j <= m < pv.len() ==> lex_lt(k@, #[trigger] pv[m].0),
                    decreases j,
                {
                    j -= 1;
                }
                proof {
                    lemma_insert_sorted_at(pv, (k@, v@), j as int);
                    assert(e.take(i + 1).drop_last() =~= e.take(i as int));
                    assert(e[i as int] == (k@, v@));
                }
                sorted.insert(j, (k, v));
                assert(pairs_view(sorted@) =~= pv.insert(j as int, e[i as int]));
                i += 1;
            }
            assert(e.take(i as int) =~= e);
            head(5, pairs.len() as u64, out);
            let ghost start = out@;
            let ghost sv = pairs_view(sorted@);
            let mut m: usize = 0;
            while m < sorted.len()
                invariant
                    0 <= m <= sorted@.len(),
                    sv == pairs_view(sorted@),
                    out@ == start + concat_pairs(sv.take(m as int)),
                decreases sorted@.len() - m,
            {
                extend_bytes(out, sorted[m].0.as_slice());
                extend_bytes(out, sorted[m].1.as_slice());
                proof {
                    assert(sv.take(m + 1).drop_last() =~= sv.take(m as int));
                    assert(start + concat_pairs(sv.take(m as int)) + sv[m as int].0 + sv[m as int].1
                        =~= start + concat_pairs(sv.take(m + 1)));
                }
                m += 1;
            }
            assert(sv.take(m as int) =~= sv);
            assert(old(out)@ + head_bytes(5, pairs@.len() as u64) + concat_pairs(sv) =~= old(out)@
                + enc(value@));
        },
        Value::Null => {
            out.push(0xf6);
            assert(old(out)@.push(0xf6) =~= old(out)@ + enc(value@));
        },
        Value::Tag(t, inner) => {
            head(6, *t, out);
            encode_into(inner, out);
            assert(old(out)@ + head_bytes(6, *t) + enc(model(**inner)) =~= old(out)@ + enc(
                value@,
            ));
        },
    }
}

// ---------------------------------------------------------------------------
// Decoder
// ---------------------------------------------------------------------------

/// `std::string::String::from_utf8`: `Some` exactly when the bytes are valid
/// UTF-8 (std's documented error condition), and then the string's UTF-8
/// encoding is those bytes (the string takes over the vector's buffer).
#[verifier::external_body]
fn string_from_utf8(bytes: Vec<u8>) -> (r: Option<String>)
    ensures
        r is Some <==> valid_utf8(bytes@),
        r matches Some(s) ==> encode_utf8(s@) == bytes@,
{
    String::from_utf8(bytes).ok()
}

pub open spec fn pow256(n: nat) -> nat
    decreases n,
{
    if n == 0 {
        1
    } else {
        pow256((n - 1) as nat) * 256
    }
}

pub proof fn lemma_be_value_bound(s: Seq<u8>)
    ensures
        be_value(s) < pow256(s.len()),
    decreases s.len(),
{
    if s.len() > 0 {
        lemma_be_value_bound(s.drop_last());
        let a = be_value(s.drop_last());
        let p = pow256((s.len() - 1) as nat);
        assert(a * 256 + s.last() < p * 256) by (nonlinear_arith)
            requires
                a < p,
                s.last() < 256,
        ;
    }
}

/// The big-endian value of at most eight bytes.
fn read_be(b: &[u8]) -> (r: u64)
    requires
        b@.len() <= 8,
    ensures
        r == be_value(b@),
{
    let mut acc: u64 = 0;
    let mut i: usize = 0;
    assert(b@.take(0) =~= Seq::<u8>::empty());
    while i < b.len()
        invariant
            0 <= i <= b@.len(),
            b@.len() <= 8,
            acc == be_value(b@.take(i as int)),
        decreases b@.len() - i,
    {
        proof {
            assert(b@.take(i + 1).drop_last() =~= b@.take(i as int));
            lemma_be_value_bound(b@.take(i + 1));
            reveal_with_fuel(pow256, 9);
            assert(pow256(8) == 0x1_0000_0000_0000_0000);
            lemma_pow256_mono((i + 1) as nat, 8);
        }
        acc = acc * 256 + b[i] as u64;
        i += 1;
    }
    assert(b@.take(i as int) =~= b@);
    acc
}

pub proof fn lemma_pow256_mono(a: nat, b: nat)
    requires
        a <= b,
    ensures
        pow256(a) <= pow256(b),
    decreases b,
{
    if a < b {
        lemma_pow256_mono(a, (b - 1) as nat);
    }
}

pub open spec fn opt_view(o: Option<Vec<u8>>) -> Option<Seq<u8>> {
    match o {
        Some(k) => Some(k@),
        None => None,
    }
}

/// The decoder's state: the input and the read position.
struct Decoder<'a> {
    buf: &'a [u8],
    pos: usize,
}

/// The model of a decoding result.
pub open spec fn value_result(r: Result<Value, Error>) -> Result<Cbor, Error> {
    match r {
        Ok(v) => Ok(v@),
        Err(e) => Err(e),
    }
}

impl<'a> Decoder<'a> {
    fn byte(&mut self) -> (r: Result<u8, Error>)
        requires
            old(self).pos <= old(self).buf@.len(),
        ensures
            final(self).buf == old(self).buf,
            final(self).pos <= final(self).buf@.len(),
            match r {
                Ok(b) => old(self).pos < old(self).buf@.len() && b == old(self).buf@[old(
                    self,
                ).pos as int] && final(self).pos == old(self).pos + 1,
                Err(e) => e == Error::Decode && old(self).pos >= old(self).buf@.len(),
            },
    {
        if self.pos < self.buf.len() {
            let b = self.buf[self.pos];
            self.pos += 1;
            Ok(b)
        } else {
            Err(Error::Decode)
        }
    }

    fn take(&mut self, n: usize) -> (r: Result<&'a [u8], Error>)
        requires
            old(self).pos <= old(self).buf@.len(),
        ensures
            final(self).buf == old(self).buf,
            final(self).pos <= final(self).buf@.len(),
            match r {
                Ok(s) => old(self).pos + n <= old(self).buf@.len() && s@ == old(self).buf@.subrange(
                    old(self).pos as int,
                    old(self).pos + n,
                ) && final(self).pos == old(self).pos + n,
                Err(e) => e == Error::Decode && old(self).pos + n > old(self).buf@.len(),
            },
    {
        if n > self.buf.len() - self.pos {
            return Err(Error::Decode);
        }
        let end = self.pos + n;
        let slice = vstd::slice::slice_subrange(self.buf, self.pos, end);
        self.pos = end;
        Ok(slice)
    }

    /// Read the argument for a head whose additional-info is `ai`.
    /// Accepts every length encoding (even non-shortest) so the re-encode
    /// comparison can flag non-shortest forms as non-canonical.
    fn arg(&mut self, ai: u8) -> (r: Result<u64, Error>)
        requires
            old(self).pos <= old(self).buf@.len(),
        ensures
            final(self).buf == old(self).buf,
            final(self).pos <= final(self).buf@.len(),
            parse_arg(old(self).buf@, old(self).pos as int, ai) == match r {
                Ok(a) => Ok((a, final(self).pos as int)),
                Err(e) => Err(e),
            },
    {
        if ai < 24 {
            Ok(ai as u64)
        } else if ai == 24 {
            let b = self.byte()?;
            Ok(b as u64)
        } else if ai == 25 {
            let s = self.take(2)?;
            Ok(read_be(s))
        } else if ai == 26 {
            let s = self.take(4)?;
            Ok(read_be(s))
        } else if ai == 27 {
            let s = self.take(8)?;
            Ok(read_be(s))
        } else {
            Err(Error::Decode)
        }
    }

    #[verifier::loop_isolation(false)]
    fn value(&mut self, depth: usize) -> (r: Result<Value, Error>)
        requires
            old(self).pos <= old(self).buf@.len(),
        ensures
            final(self).buf == old(self).buf,
            final(self).pos <= final(self).buf@.len(),
            parse_value(old(self).buf@, old(self).pos as int, depth as int) == match r {
                Ok(v) => Ok((v@, final(self).pos as int)),
                Err(e) => Err(e),
            },
            depth > MAX_DEPTH ==> r == Err::<Value, Error>(Error::Decode) && final(self).pos == old(
                self,
            ).pos,
        decreases MAX_DEPTH + 1 - depth,
    {
        if depth > MAX_DEPTH {
            return Err(Error::Decode);  // hostile nesting; never recurse past the bound
        }
        let ghost buf0 = self.buf@;
        let ghost pos0 = self.pos as int;
        let initial = self.byte()?;
        let major = initial / 32;
        let ai = initial % 32;

        // Indefinite lengths are non-canonical; on string/array/map that is
        // the precise diagnosis. On other majors ai = 31 is simply malformed.
        if ai == 31 {
            return Err(
                if 2 <= major && major <= 5 {
                    Error::Noncanonical
                } else {
                    Error::Decode
                },
            );
        }
        if 28 <= ai && ai <= 30 {
            return Err(Error::Decode);
        }
        if major == 7 {
            return if ai == 22 {
                Ok(Value::Null)
            } else if 25 <= ai && ai <= 27 {
                Err(Error::Noncanonical)  // floats forbidden
            } else {
                Err(Error::Decode)
            };
        }
        if major == 6 {
            // Only the single outer COSE_Sign tag is allowed: a tag anywhere
            // nested is non-canonical for this profile.
            if depth != 0 {
                return Err(Error::Noncanonical);
            }
            let tag = self.arg(ai)?;
            let inner = self.value(depth + 1)?;
            return Ok(Value::Tag(tag, Box::new(inner)));
        }
        let a = self.arg(ai)?;
        let ghost p2 = self.pos as int;
        if major == 0 {
            Ok(Value::Int(a as i128))
        } else if major == 1 {
            Ok(Value::Int(-1 - a as i128))
        } else if major == 2 {
            let len = a as usize;
            let b = self.take(len)?;
            Ok(Value::Bytes(vstd::slice::slice_to_vec(b)))
        } else if major == 3 {
            let len = a as usize;
            let b = self.take(len)?;
            let bytes = vstd::slice::slice_to_vec(b);
            match string_from_utf8(bytes) {
                Some(text) => {
                    proof {
                        vstd::utf8::encode_utf8_decode_utf8(text@);
                    }
                    Ok(Value::Text(text))
                },
                None => Err(Error::Decode),
            }
        } else if major == 4 {
            let len = a as usize;
            let mut items: Vec<Value> = Vec::new();
            let mut i: usize = 0;
            assert(parse_items(buf0, p2, depth + 1, len as nat) == prefixed(
                model_seq(items@),
                parse_items(buf0, self.pos as int, depth + 1, (len - i) as nat),
            )) by {
                let r = parse_items(buf0, p2, depth + 1, len as nat);
                if r is Ok {
                    assert(Seq::<Cbor>::empty() + (r->Ok_0).0 =~= (r->Ok_0).0);
                }
            }
            while i < len
                invariant
                    self.buf@ == buf0,
                    self.pos <= self.buf@.len(),
                    depth <= MAX_DEPTH,
                    0 <= i <= len,
                    parse_items(buf0, p2, depth + 1, len as nat) == prefixed(
                        model_seq(items@),
                        parse_items(buf0, self.pos as int, depth + 1, (len - i) as nat),
                    ),
                decreases len - i,
            {
                let ghost p = self.pos as int;
                let v = self.value(depth + 1)?;
                proof {
                    let rest = parse_items(buf0, self.pos as int, depth + 1, (len - i - 1) as nat);
                    assert(parse_items(buf0, p, depth + 1, (len - i) as nat) == prefixed(
                        seq![v@],
                        rest,
                    ));
                    assert(model_seq(items@.push(v)) == model_seq(items@).push(v@)) by {
                        assert(items@.push(v).drop_last() =~= items@);
                    }
                    if rest is Ok {
                        assert(model_seq(items@) + (seq![v@] + (rest->Ok_0).0) =~= model_seq(
                            items@,
                        ).push(v@) + (rest->Ok_0).0);
                    }
                }
                items.push(v);
                i += 1;
            }
            assert(model_seq(items@) + Seq::<Cbor>::empty() =~= model_seq(items@));
            Ok(Value::Array(items))
        } else if major == 5 {
            let len = a as usize;
            let mut pairs: Vec<(Value, Value)> = Vec::new();
            let mut prev_key: Option<Vec<u8>> = None;
            let mut i: usize = 0;
            assert(parse_pairs(buf0, p2, depth + 1, len as nat, None) == prefixed(
                model_pairs(pairs@),
                parse_pairs(buf0, self.pos as int, depth + 1, (len - i) as nat, None),
            )) by {
                let r = parse_pairs(buf0, p2, depth + 1, len as nat, None);
                if r is Ok {
                    assert(Seq::<(Cbor, Cbor)>::empty() + (r->Ok_0).0 =~= (r->Ok_0).0);
                }
            }
            while i < len
                invariant
                    self.buf@ == buf0,
                    self.pos <= self.buf@.len(),
                    depth <= MAX_DEPTH,
                    0 <= i <= len,
                    parse_pairs(buf0, p2, depth + 1, len as nat, None) == prefixed(
                        model_pairs(pairs@),
                        parse_pairs(
                            buf0,
                            self.pos as int,
                            depth + 1,
                            (len - i) as nat,
                            opt_view(prev_key),
                        ),
                    ),
                decreases len - i,
            {
                let ghost p = self.pos as int;
                let ghost prev = opt_view(prev_key);
                let k = self.value(depth + 1)?;
                let v = self.value(depth + 1)?;
                // Keys must be strictly ascending by encoded form: this
                // enforces canonical key order and rejects duplicate keys,
                // which re-encode-and-compare alone cannot catch.
                let key_bytes = encode(&k);
                if let Some(prev_bytes) = &prev_key {
                    if !bytes_lt(prev_bytes.as_slice(), key_bytes.as_slice()) {
                        return Err(Error::Noncanonical);
                    }
                }
                proof {
                    let rest = parse_pairs(
                        buf0,
                        self.pos as int,
                        depth + 1,
                        (len - i - 1) as nat,
                        Some(key_bytes@),
                    );
                    assert(parse_pairs(buf0, p, depth + 1, (len - i) as nat, prev) == prefixed(
                        seq![(k@, v@)],
                        rest,
                    ));
                    assert(model_pairs(pairs@.push((k, v))) == model_pairs(pairs@).push((k@, v@)))
                        by {
                        assert(pairs@.push((k, v)).drop_last() =~= pairs@);
                    }
                    if rest is Ok {
                        assert(model_pairs(pairs@) + (seq![(k@, v@)] + (rest->Ok_0).0) =~= model_pairs(
                            pairs@,
                        ).push((k@, v@)) + (rest->Ok_0).0);
                    }
                }
                prev_key = Some(key_bytes);
                pairs.push((k, v));
                i += 1;
            }
            assert(model_pairs(pairs@) + Seq::<(Cbor, Cbor)>::empty() =~= model_pairs(pairs@));
            Ok(Value::Mapping(pairs))
        } else {
            // major type is three bits: 0..=7 are all handled above
            proof {
                assert(false);
            }
            Err(Error::Decode)
        }
    }
}

/// Decode exactly one item from `input`, and reject unless `input` is its
/// deterministic encoding. Trailing bytes are `E_DECODE`; well-formed but
/// non-canonical input is `E_NONCANONICAL`.
///
/// Canonicality is judged by re-encoding the decoded value and comparing
/// bytes at this level only: byte strings are opaque here, so `bstr .cbor`
/// items are validated by decoding them in turn.
pub fn decode_canonical(input: &[u8]) -> (r: Result<Value, Error>)
    ensures
        value_result(r) == decode_canonical_spec(input@),
{
    let mut dec = Decoder { buf: input, pos: 0 };
    let value = dec.value(0)?;
    if dec.pos != input.len() {
        return Err(Error::Decode);  // trailing garbage
    }
    let re = encode(&value);
    if !bytes_eq(re.as_slice(), input) {
        return Err(Error::Noncanonical);
    }
    Ok(value)
}

} // verus!
