//! Laws of the deterministic CBOR layer: the decoder accepts exactly the
//! canonical encodings, and decoding a canonical encoding gives back the value.
use crate::bytes::{lemma_lex_lt_asymmetric, lemma_rearranged_symmetric, lex_lt, rearranged};
use crate::cbor::{
    be_bytes, be_value, concat_pairs, decode_canonical_spec, enc, enc_pairs, enc_seq, head_bytes,
    insert_sorted, lemma_enc_pairs, parse_arg, parse_items, parse_pairs, parse_value, pow256, sort_pairs, Cbor,
    MAX_DEPTH,
};
use crate::error::Error;
use vstd::prelude::*;
use vstd::utf8::encode_utf8;

verus! {

/// Values the profile can represent canonically at nesting `depth`: integers
/// in the CBOR major 0/1 range, lengths that fit `usize`, map keys strictly
/// ascending by encoding (so no duplicates), nesting within the decoder's
/// bound, and a tag only at the top.
pub open spec fn canonical_at(c: Cbor, depth: int) -> bool
    decreases c,
{
    0 <= depth <= MAX_DEPTH && match c {
        Cbor::Int(i) => -0x1_0000_0000_0000_0000 <= i < 0x1_0000_0000_0000_0000,
        Cbor::Bytes(b) => b.len() <= usize::MAX,
        Cbor::Text(t) => encode_utf8(t).len() <= usize::MAX,
        Cbor::Array(items) => items.len() <= usize::MAX && forall|i: int|
            0 <= i < items.len() ==> canonical_at(#[trigger] items[i], depth + 1),
        Cbor::Mapping(pairs) => {
            &&& pairs.len() <= usize::MAX
            &&& forall|i: int|
                0 <= i < pairs.len() ==> canonical_at(#[trigger] pairs[i].0, depth + 1)
                    && canonical_at(pairs[i].1, depth + 1)
            &&& forall|i: int, j: int|
                0 <= i < j < pairs.len() ==> lex_lt(enc(#[trigger] pairs[i].0), enc(#[trigger] pairs[j].0))
        },
        Cbor::Null => true,
        Cbor::Tag(_, inner) => depth == 0 && canonical_at(*inner, depth + 1),
    }
}

/// A value the profile represents canonically as a top-level item.
pub open spec fn canonical(c: Cbor) -> bool {
    canonical_at(c, 0)
}

proof fn lemma_split(buf: Seq<u8>, pos: int, a: Seq<u8>, b: Seq<u8>)
    requires
        0 <= pos,
        pos + a.len() + b.len() <= buf.len(),
        buf.subrange(pos, pos + a.len() + b.len()) == a + b,
    ensures
        buf.subrange(pos, pos + a.len()) == a,
        buf.subrange(pos + a.len(), pos + a.len() + b.len()) == b,
{
    let s = buf.subrange(pos, pos + a.len() + b.len());
    assert forall|i: int| 0 <= i < a.len() implies buf[pos + i] == a[i] by {
        assert(s[i] == buf[pos + i]);
        assert(s[i] == (a + b)[i]);
    }
    assert forall|i: int| 0 <= i < b.len() implies buf[pos + a.len() + i] == b[i] by {
        assert(s[a.len() + i] == buf[pos + a.len() + i]);
        assert(s[a.len() + i] == (a + b)[a.len() + i]);
    }
    assert(buf.subrange(pos, pos + a.len()) =~= a);
    assert(buf.subrange(pos + a.len(), pos + a.len() + b.len()) =~= b);
}

proof fn lemma_be_roundtrip(x: nat, n: nat)
    requires
        x < pow256(n),
    ensures
        be_bytes(x, n).len() == n,
        be_value(be_bytes(x, n)) == x,
    decreases n,
{
    if n > 0 {
        let p = pow256((n - 1) as nat);
        assert(x / 256 < p) by (nonlinear_arith)
            requires
                x < p * 256,
        ;
        lemma_be_roundtrip(x / 256, (n - 1) as nat);
        assert(be_bytes(x, n).drop_last() =~= be_bytes(x / 256, (n - 1) as nat));
    }
}

/// Reading a head written by `head_bytes` gives back its major type and argument.
proof fn lemma_parse_head(major: u8, a: u64, buf: Seq<u8>, pos: int)
    requires
        major < 7,
        0 <= pos,
        pos + head_bytes(major, a).len() <= buf.len(),
        buf.subrange(pos, pos + head_bytes(major, a).len()) == head_bytes(major, a),
    ensures
        head_bytes(major, a).len() >= 1,
        buf[pos] / 32 == major,
        buf[pos] % 32 <= 27,
        parse_arg(buf, pos + 1, buf[pos] % 32) == Ok::<_, Error>((a, pos + head_bytes(major, a).len())),
{
    let hb = head_bytes(major, a);
    let mb = major as int * 32;
    reveal_with_fuel(pow256, 9);
    assert(buf[pos] == buf.subrange(pos, pos + hb.len())[0]);
    if a < 24 {
        assert(buf[pos] == (mb + a) as u8);
    } else if a < 0x100 {
        assert(buf[pos] == (mb + 24) as u8);
        assert(buf[pos + 1] == buf.subrange(pos, pos + hb.len())[1]);
    } else {
        let n: nat = if a < 0x10000 {
            2
        } else if a < 0x1_0000_0000 {
            4
        } else {
            8
        };
        lemma_be_roundtrip(a as nat, n);
        assert(hb =~= hb.subrange(0, 1) + be_bytes(a as nat, n));
        lemma_split(buf, pos, hb.subrange(0, 1), be_bytes(a as nat, n));
    }
}

proof fn lemma_enc_seq_front(s: Seq<Cbor>)
    requires
        s.len() > 0,
    ensures
        enc_seq(s) == enc(s[0]) + enc_seq(s.drop_first()),
    decreases s.len(),
{
    if s.len() == 1 {
        assert(s.drop_last() =~= Seq::<Cbor>::empty());
        assert(s.drop_first() =~= Seq::<Cbor>::empty());
        assert(Seq::<u8>::empty() + enc(s[0]) =~= enc(s[0]) + Seq::<u8>::empty());
    } else {
        lemma_enc_seq_front(s.drop_last());
        assert(s.drop_last().drop_first() =~= s.drop_first().drop_last());
        assert(s.drop_first().last() == s.last());
        assert(enc(s[0]) + enc_seq(s.drop_first().drop_last()) + enc(s.last()) =~= enc(s[0])
            + (enc_seq(s.drop_first().drop_last()) + enc(s.last())));
    }
}

/// The concatenated encodings of map entries in entry order.
pub open spec fn enc_entries(s: Seq<(Cbor, Cbor)>) -> Seq<u8> {
    concat_pairs(enc_pairs(s))
}

proof fn lemma_enc_entries_front(s: Seq<(Cbor, Cbor)>)
    requires
        s.len() > 0,
    ensures
        enc_entries(s) == enc(s[0].0) + enc(s[0].1) + enc_entries(s.drop_first()),
    decreases s.len(),
{
    if s.len() == 1 {
        assert(s.drop_last() =~= Seq::<(Cbor, Cbor)>::empty());
        assert(s.drop_first() =~= Seq::<(Cbor, Cbor)>::empty());
        assert(enc_pairs(s) == Seq::<(Seq<u8>, Seq<u8>)>::empty().push((enc(s[0].0), enc(s[0].1))));
        assert(enc_pairs(s).drop_last() =~= Seq::<(Seq<u8>, Seq<u8>)>::empty());
        assert(Seq::<u8>::empty() + enc(s[0].0) + enc(s[0].1) =~= enc(s[0].0) + enc(s[0].1)
            + Seq::<u8>::empty());
    } else {
        lemma_enc_entries_front(s.drop_last());
        assert(s.drop_last().drop_first() =~= s.drop_first().drop_last());
        assert(s.drop_first().last() == s.last());
        let e = enc_pairs(s);
        assert(e.drop_last() == enc_pairs(s.drop_last()));
        assert(enc_pairs(s.drop_first()).drop_last() == enc_pairs(s.drop_first().drop_last()));
        assert(enc(s[0].0) + enc(s[0].1) + enc_entries(s.drop_first().drop_last()) + enc(
            s.last().0,
        ) + enc(s.last().1) =~= enc(s[0].0) + enc(s[0].1) + (enc_entries(
            s.drop_first().drop_last(),
        ) + enc(s.last().0) + enc(s.last().1)));
    }
}

/// Entries already in strictly ascending key order are left in place by the sort.
proof fn lemma_sort_sorted(s: Seq<(Seq<u8>, Seq<u8>)>)
    requires
        forall|i: int, j: int| 0 <= i < j < s.len() ==> lex_lt(#[trigger] s[i].0, #[trigger] s[j].0),
    ensures
        sort_pairs(s) == s,
    decreases s.len(),
{
    if s.len() > 0 {
        lemma_sort_sorted(s.drop_last());
        let t = s.drop_last();
        if t.len() > 0 {
            lemma_lex_lt_asymmetric(t.last().0, s.last().0);
            assert(lex_lt(s[s.len() - 2].0, s[s.len() - 1].0));
        }
        assert(t.push(s.last()) =~= s);
    }
}

proof fn lemma_parse_items_enc(items: Seq<Cbor>, buf: Seq<u8>, pos: int, depth: int)
    requires
        1 <= depth <= MAX_DEPTH + 1,
        forall|i: int| 0 <= i < items.len() ==> canonical_at(#[trigger] items[i], depth),
        0 <= pos,
        pos + enc_seq(items).len() <= buf.len(),
        buf.subrange(pos, pos + enc_seq(items).len()) == enc_seq(items),
    ensures
        parse_items(buf, pos, depth, items.len()) == Ok::<_, Error>((items, pos + enc_seq(items).len())),
    decreases items,
{
    if items.len() > 0 {
        lemma_enc_seq_front(items);
        let e0 = enc(items[0]);
        let rest = items.drop_first();
        lemma_split(buf, pos, e0, enc_seq(rest));
        assert(canonical_at(items[0], depth));
        lemma_parse_enc(items[0], buf, pos, depth);
        assert forall|i: int| 0 <= i < rest.len() implies canonical_at(#[trigger] rest[i], depth) by {
            assert(rest[i] == items[i + 1]);
        }
        lemma_parse_items_enc(rest, buf, pos + e0.len(), depth);
        assert(seq![items[0]] + rest =~= items);
        assert(rest.len() == (items.len() - 1) as nat);
    } else {
        assert(items =~= Seq::<Cbor>::empty());
    }
}

proof fn lemma_parse_pairs_enc(
    pairs: Seq<(Cbor, Cbor)>,
    buf: Seq<u8>,
    pos: int,
    depth: int,
    prev: Option<Seq<u8>>,
)
    requires
        1 <= depth <= MAX_DEPTH + 1,
        forall|i: int|
            0 <= i < pairs.len() ==> canonical_at(#[trigger] pairs[i].0, depth) && canonical_at(
                pairs[i].1,
                depth,
            ),
        forall|i: int, j: int|
            0 <= i < j < pairs.len() ==> lex_lt(enc(#[trigger] pairs[i].0), enc(#[trigger] pairs[j].0)),
        pairs.len() > 0 && prev is Some ==> lex_lt(prev->0, enc(pairs[0].0)),
        0 <= pos,
        pos + enc_entries(pairs).len() <= buf.len(),
        buf.subrange(pos, pos + enc_entries(pairs).len()) == enc_entries(pairs),
    ensures
        parse_pairs(buf, pos, depth, pairs.len(), prev) == Ok::<_, Error>(
            (pairs, pos + enc_entries(pairs).len()),
        ),
    decreases pairs,
{
    if pairs.len() > 0 {
        lemma_enc_entries_front(pairs);
        let k = pairs[0].0;
        let v = pairs[0].1;
        let rest = pairs.drop_first();
        lemma_split(buf, pos, enc(k) + enc(v), enc_entries(rest));
        lemma_split(buf, pos, enc(k), enc(v));
        assert(canonical_at(k, depth) && canonical_at(v, depth));
        lemma_parse_enc(k, buf, pos, depth);
        lemma_parse_enc(v, buf, pos + enc(k).len(), depth);
        assert forall|i: int| 0 <= i < rest.len() implies canonical_at(#[trigger] rest[i].0, depth)
            && canonical_at(rest[i].1, depth) by {
            assert(rest[i] == pairs[i + 1]);
        }
        assert forall|i: int, j: int| 0 <= i < j < rest.len() implies lex_lt(
            enc(#[trigger] rest[i].0),
            enc(#[trigger] rest[j].0),
        ) by {
            assert(rest[i] == pairs[i + 1]);
            assert(rest[j] == pairs[j + 1]);
        }
        if rest.len() > 0 {
            assert(rest[0] == pairs[1]);
        }
        lemma_parse_pairs_enc(rest, buf, pos + enc(k).len() + enc(v).len(), depth, Some(enc(k)));
        assert(seq![(k, v)] + rest =~= pairs);
        assert(rest.len() == (pairs.len() - 1) as nat);
    } else {
        assert(pairs =~= Seq::<(Cbor, Cbor)>::empty());
    }
}

/// The decoder reads a canonical value back from its encoding, whatever follows it.
pub proof fn lemma_parse_enc(c: Cbor, buf: Seq<u8>, pos: int, depth: int)
    requires
        canonical_at(c, depth),
        0 <= pos,
        pos + enc(c).len() <= buf.len(),
        buf.subrange(pos, pos + enc(c).len()) == enc(c),
    ensures
        parse_value(buf, pos, depth) == Ok::<_, Error>((c, pos + enc(c).len())),
    decreases c,
{
    match c {
        Cbor::Int(i) => {
            if i >= 0 {
                lemma_parse_head(0, i as u64, buf, pos);
            } else {
                lemma_parse_head(1, (-1 - i) as u64, buf, pos);
            }
        },
        Cbor::Bytes(b) => {
            let hb = head_bytes(2, b.len() as u64);
            lemma_split(buf, pos, hb, b);
            lemma_parse_head(2, b.len() as u64, buf, pos);
        },
        Cbor::Text(t) => {
            let u = encode_utf8(t);
            let hb = head_bytes(3, u.len() as u64);
            lemma_split(buf, pos, hb, u);
            lemma_parse_head(3, u.len() as u64, buf, pos);
            vstd::utf8::encode_utf8_valid_utf8(t);
            vstd::utf8::encode_utf8_decode_utf8(t);
        },
        Cbor::Array(items) => {
            let hb = head_bytes(4, items.len() as u64);
            lemma_split(buf, pos, hb, enc_seq(items));
            lemma_parse_head(4, items.len() as u64, buf, pos);
            assert forall|i: int| 0 <= i < items.len() implies canonical_at(
                #[trigger] items[i],
                depth + 1,
            ) by {}
            lemma_parse_items_enc(items, buf, pos + hb.len(), depth + 1);
        },
        Cbor::Mapping(pairs) => {
            let hb = head_bytes(5, pairs.len() as u64);
            let e = enc_pairs(pairs);
            lemma_enc_pairs(pairs);
            assert forall|i: int, j: int| 0 <= i < j < e.len() implies lex_lt(
                #[trigger] e[i].0,
                #[trigger] e[j].0,
            ) by {
                assert(e[i].0 == enc(pairs[i].0));
                assert(e[j].0 == enc(pairs[j].0));
            }
            lemma_sort_sorted(e);
            lemma_split(buf, pos, hb, enc_entries(pairs));
            lemma_parse_head(5, pairs.len() as u64, buf, pos);
            lemma_parse_pairs_enc(pairs, buf, pos + hb.len(), depth + 1, None);
        },
        Cbor::Null => {
            assert(buf[pos] == buf.subrange(pos, pos + 1)[0]);
        },
        Cbor::Tag(t, inner) => {
            let hb = head_bytes(6, t);
            lemma_split(buf, pos, hb, enc(*inner));
            lemma_parse_head(6, t, buf, pos);
            lemma_parse_enc(*inner, buf, pos + hb.len(), depth + 1);
        },
    }
}

/// Decoding the canonical encoding of a canonical value gives back the value.
pub proof fn law_decode_encode(c: Cbor)
    requires
        canonical(c),
    ensures
        decode_canonical_spec(enc(c)) == Ok::<_, Error>(c),
{
    let e = enc(c);
    assert(e.subrange(0, e.len() as int) =~= e);
    lemma_parse_enc(c, e, 0, 0);
}

/// Whatever the decoder accepts is the canonical encoding of what it returns.
pub proof fn law_decode_is_canonical(input: Seq<u8>)
    ensures
        decode_canonical_spec(input) matches Ok(c) ==> enc(c) == input,
{
}

/// Two inputs that decode to the same value are the same bytes: there is
/// exactly one accepted encoding of each value.
pub proof fn law_unique_encoding(a: Seq<u8>, b: Seq<u8>)
    requires
        decode_canonical_spec(a) is Ok,
        decode_canonical_spec(a) == decode_canonical_spec(b),
    ensures
        a == b,
{
}

/// The decoder's failures: malformed input is `E_DECODE`, well-formed but
/// non-deterministic input is `E_NONCANONICAL`.
pub open spec fn decode_error(e: Error) -> bool {
    e == Error::Decode || e == Error::Noncanonical
}

proof fn lemma_parse_value_errors(buf: Seq<u8>, pos: int, depth: int)
    ensures
        parse_value(buf, pos, depth) matches Err(e) ==> decode_error(e),
    decreases MAX_DEPTH + 1 - depth, 1int, 0int,
{
    if depth <= MAX_DEPTH && 0 <= pos < buf.len() {
        let initial = buf[pos];
        let major = initial / 32;
        let ai = initial % 32;
        if ai != 31 && !(28 <= ai <= 30) && major != 7 && !(major == 6 && depth != 0) {
            if let Ok((a, p2)) = parse_arg(buf, pos + 1, ai) {
                if major == 4 {
                    lemma_parse_items_errors(buf, p2, depth + 1, (a as usize) as nat);
                } else if major == 5 {
                    lemma_parse_pairs_errors(buf, p2, depth + 1, (a as usize) as nat, None);
                } else if major == 6 {
                    lemma_parse_value_errors(buf, p2, depth + 1);
                }
            }
        }
    }
}

proof fn lemma_parse_items_errors(buf: Seq<u8>, pos: int, depth: int, n: nat)
    ensures
        parse_items(buf, pos, depth, n) matches Err(e) ==> decode_error(e),
    decreases MAX_DEPTH + 2 - depth, 0int, n,
{
    if depth <= MAX_DEPTH + 1 && n > 0 {
        lemma_parse_value_errors(buf, pos, depth);
        if let Ok((v, p1)) = parse_value(buf, pos, depth) {
            lemma_parse_items_errors(buf, p1, depth, (n - 1) as nat);
        }
    }
}

proof fn lemma_parse_pairs_errors(buf: Seq<u8>, pos: int, depth: int, n: nat, prev: Option<Seq<u8>>)
    ensures
        parse_pairs(buf, pos, depth, n, prev) matches Err(e) ==> decode_error(e),
    decreases MAX_DEPTH + 2 - depth, 0int, n,
{
    if depth <= MAX_DEPTH + 1 && n > 0 {
        lemma_parse_value_errors(buf, pos, depth);
        if let Ok((k, p1)) = parse_value(buf, pos, depth) {
            lemma_parse_value_errors(buf, p1, depth);
            if let Ok((v, p2)) = parse_value(buf, p1, depth) {
                lemma_parse_pairs_errors(buf, p2, depth, (n - 1) as nat, Some(enc(k)));
            }
        }
    }
}

/// The decoder fails only with the decoding codes: `E_DECODE` for malformed
/// input and `E_NONCANONICAL` for a non-deterministic encoding.
pub proof fn law_decode_errors(input: Seq<u8>)
    ensures
        decode_canonical_spec(input) matches Err(e) ==> decode_error(e),
{
    lemma_parse_value_errors(input, 0, 0);
}

/// Entries strictly ascending by key.
spec fn keys_ascending(s: Seq<(Seq<u8>, Seq<u8>)>) -> bool {
    forall|a: int, b: int| 0 <= a < b < s.len() ==> lex_lt((#[trigger] s[a]).0, (#[trigger] s[b]).0)
}

/// No two entries share a key.
spec fn keys_distinct(s: Seq<(Seq<u8>, Seq<u8>)>) -> bool {
    forall|a: int, b: int| 0 <= a < s.len() && 0 <= b < s.len() && a != b ==> (#[trigger] s[a]).0 != (#[trigger] s[b]).0
}

/// Two entry lists hold the same entries.
spec fn same_entries(a: Seq<(Seq<u8>, Seq<u8>)>, b: Seq<(Seq<u8>, Seq<u8>)>) -> bool {
    forall|x: (Seq<u8>, Seq<u8>)| #![trigger a.contains(x)] #![trigger b.contains(x)] a.contains(x) <==> b.contains(x)
}

proof fn lemma_insert_sorted_distinct(t: Seq<(Seq<u8>, Seq<u8>)>, x: (Seq<u8>, Seq<u8>))
    requires
        keys_ascending(t),
        forall|k: int| 0 <= k < t.len() ==> (#[trigger] t[k]).0 != x.0,
    ensures
        keys_ascending(insert_sorted(t, x)),
        forall|y: (Seq<u8>, Seq<u8>)| #[trigger] insert_sorted(t, x).contains(y) <==> (t.contains(y) || y == x),
    decreases t.len(),
{
    let r = insert_sorted(t, x);
    if t.len() == 0 {
        assert(r[0] == x);
    } else if lex_lt(x.0, t.last().0) {
        let u = t.drop_last();
        assert forall|k: int| 0 <= k < u.len() implies (#[trigger] u[k]).0 != x.0 by {
            assert(u[k] == t[k]);
        }
        lemma_insert_sorted_distinct(u, x);
        let r1 = insert_sorted(u, x);
        assert(r == r1.push(t.last()));
        assert forall|y: (Seq<u8>, Seq<u8>)| #[trigger] r.contains(y) <==> (t.contains(y) || y == x) by {
            if r.contains(y) {
                let i = choose|i: int| 0 <= i < r.len() && r[i] == y;
                if i < r1.len() {
                    assert(r1.contains(y));
                    if y != x {
                        let k = choose|k: int| 0 <= k < u.len() && u[k] == y;
                        assert(t[k] == y);
                    }
                } else {
                    assert(t[t.len() - 1] == y);
                }
            }
            if t.contains(y) {
                let k = choose|k: int| 0 <= k < t.len() && t[k] == y;
                if k < t.len() - 1 {
                    assert(u[k] == y);
                    assert(r1.contains(y));
                    let i = choose|i: int| 0 <= i < r1.len() && r1[i] == y;
                    assert(r[i] == y);
                } else {
                    assert(r[r.len() - 1] == y);
                }
            }
            if y == x {
                assert(r1.contains(y));
                let i = choose|i: int| 0 <= i < r1.len() && r1[i] == y;
                assert(r[i] == y);
            }
        }
        assert forall|a: int, b: int| 0 <= a < b < r.len() implies lex_lt((#[trigger] r[a]).0, (#[trigger] r[b]).0) by {
            if b == r.len() - 1 {
                assert(r[b] == t.last());
                assert(r1.contains(r1[a]));
                assert(r[a] == r1[a]);
                if r1[a] != x {
                    let k = choose|k: int| 0 <= k < u.len() && u[k] == r1[a];
                    assert(t[k] == r1[a]);
                    assert(lex_lt(t[k].0, t[t.len() - 1].0));
                }
            } else {
                assert(r[a] == r1[a] && r[b] == r1[b]);
            }
        }
    } else {
        let last = t.last();
        assert(t[t.len() - 1] == last);
        crate::bytes::lemma_lex_lt_total(x.0, last.0);
        assert(lex_lt(last.0, x.0));
        assert(r == t.push(x));
        assert forall|a: int, b: int| 0 <= a < b < r.len() implies lex_lt((#[trigger] r[a]).0, (#[trigger] r[b]).0) by {
            if b == r.len() - 1 {
                if a < t.len() - 1 {
                    crate::bytes::lemma_lex_lt_transitive(t[a].0, last.0, x.0);
                }
            } else {
                assert(r[a] == t[a] && r[b] == t[b]);
            }
        }
        assert forall|y: (Seq<u8>, Seq<u8>)| #[trigger] r.contains(y) <==> (t.contains(y) || y == x) by {
            if r.contains(y) {
                let i = choose|i: int| 0 <= i < r.len() && r[i] == y;
                if i < t.len() {
                    assert(t[i] == y);
                }
            }
            if t.contains(y) {
                let k = choose|k: int| 0 <= k < t.len() && t[k] == y;
                assert(r[k] == y);
            }
            if y == x {
                assert(r[t.len() as int] == y);
            }
        }
    }
}

/// Sorting entries with distinct keys orders them strictly by key and keeps
/// exactly the entries.
proof fn lemma_sort_pairs_distinct(s: Seq<(Seq<u8>, Seq<u8>)>)
    requires
        keys_distinct(s),
    ensures
        keys_ascending(sort_pairs(s)),
        same_entries(sort_pairs(s), s),
    decreases s.len(),
{
    if s.len() > 0 {
        let u = s.drop_last();
        assert forall|a: int, b: int| 0 <= a < u.len() && 0 <= b < u.len() && a != b implies (#[trigger] u[a]).0
            != (#[trigger] u[b]).0 by {
            assert(u[a] == s[a] && u[b] == s[b]);
        }
        lemma_sort_pairs_distinct(u);
        let t = sort_pairs(u);
        let x = s.last();
        assert forall|k: int| 0 <= k < t.len() implies (#[trigger] t[k]).0 != x.0 by {
            assert(t.contains(t[k]));
            let j = choose|j: int| 0 <= j < u.len() && u[j] == t[k];
            assert(s[j] == t[k]);
            assert(s[s.len() - 1] == x);
        }
        lemma_insert_sorted_distinct(t, x);
        assert forall|y: (Seq<u8>, Seq<u8>)| #[trigger] sort_pairs(s).contains(y) <==> s.contains(y) by {
            if s.contains(y) {
                let k = choose|k: int| 0 <= k < s.len() && s[k] == y;
                if k < s.len() - 1 {
                    assert(u[k] == y);
                }
            }
            if u.contains(y) {
                let k = choose|k: int| 0 <= k < u.len() && u[k] == y;
                assert(s[k] == y);
            }
        }
    }
}

/// Two key-ascending entry lists with the same entries are equal.
proof fn lemma_ascending_unique(a: Seq<(Seq<u8>, Seq<u8>)>, b: Seq<(Seq<u8>, Seq<u8>)>)
    requires
        keys_ascending(a),
        keys_ascending(b),
        same_entries(a, b),
    ensures
        a == b,
    decreases a.len(),
{
    if a.len() == 0 {
        if b.len() > 0 {
            assert(b.contains(b[0]));
        }
        assert(a =~= b);
    } else {
        assert(a.contains(a[0]));
        assert(b.contains(a[0]));
        assert(b.contains(b[0]));
        let i = choose|i: int| 0 <= i < a.len() && a[i] == b[0];
        let j = choose|j: int| 0 <= j < b.len() && b[j] == a[0];
        if i > 0 {
            assert(lex_lt(a[0].0, a[i].0));
            if j > 0 {
                assert(lex_lt(b[0].0, b[j].0));
                lemma_lex_lt_asymmetric(a[0].0, b[0].0);
            } else {
                crate::bytes::lemma_lex_lt_irreflexive(a[0].0);
            }
        }
        assert(a[0] == b[0]);
        let ta = a.drop_first();
        let tb = b.drop_first();
        assert forall|p: int, q: int| 0 <= p < q < ta.len() implies lex_lt((#[trigger] ta[p]).0, (#[trigger] ta[q]).0) by {
            assert(ta[p] == a[p + 1] && ta[q] == a[q + 1]);
        }
        assert forall|p: int, q: int| 0 <= p < q < tb.len() implies lex_lt((#[trigger] tb[p]).0, (#[trigger] tb[q]).0) by {
            assert(tb[p] == b[p + 1] && tb[q] == b[q + 1]);
        }
        assert forall|x: (Seq<u8>, Seq<u8>)| #[trigger] ta.contains(x) <==> tb.contains(x) by {
            if ta.contains(x) {
                let p = choose|p: int| 0 <= p < ta.len() && ta[p] == x;
                assert(a[p + 1] == x);
                assert(lex_lt(a[0].0, x.0));
                crate::bytes::lemma_lex_lt_irreflexive(x.0);
                assert(a.contains(x));
                let q = choose|q: int| 0 <= q < b.len() && b[q] == x;
                assert(q != 0);
                assert(tb[q - 1] == x);
            }
            if tb.contains(x) {
                let p = choose|p: int| 0 <= p < tb.len() && tb[p] == x;
                assert(b[p + 1] == x);
                assert(lex_lt(b[0].0, x.0));
                crate::bytes::lemma_lex_lt_irreflexive(x.0);
                assert(b.contains(x));
                let q = choose|q: int| 0 <= q < a.len() && a[q] == x;
                assert(q != 0);
                assert(ta[q - 1] == x);
            }
        }
        lemma_ascending_unique(ta, tb);
        assert(a =~= seq![a[0]] + ta);
        assert(b =~= seq![b[0]] + tb);
    }
}

/// A map's encoding does not depend on the order of its entries: when no
/// two keys encode alike, rearranging the entries gives the same bytes.
pub proof fn law_map_order_irrelevant(
    pairs_1: Seq<(Cbor, Cbor)>,
    pairs_2: Seq<(Cbor, Cbor)>,
    p: spec_fn(int) -> int,
    q: spec_fn(int) -> int,
)
    requires
        rearranged(pairs_1, pairs_2, p, q),
        forall|i: int, j: int|
            0 <= i < pairs_1.len() && 0 <= j < pairs_1.len() && i != j ==> enc((#[trigger] pairs_1[i]).0) != enc(
                (#[trigger] pairs_1[j]).0,
            ),
    ensures
        enc(Cbor::Mapping(pairs_1)) == enc(Cbor::Mapping(pairs_2)),
{
    lemma_rearranged_symmetric(pairs_1, pairs_2, p, q);
    lemma_enc_pairs(pairs_1);
    lemma_enc_pairs(pairs_2);
    let e1 = enc_pairs(pairs_1);
    let e2 = enc_pairs(pairs_2);
    assert(keys_distinct(e1));
    assert forall|a: int, b: int| 0 <= a < e2.len() && 0 <= b < e2.len() && a != b implies (#[trigger] e2[a]).0
        != (#[trigger] e2[b]).0 by {
        assert(pairs_2[a] == pairs_1[p(a)] && pairs_2[b] == pairs_1[p(b)]);
    }
    assert forall|x: (Seq<u8>, Seq<u8>)| #[trigger] e1.contains(x) <==> e2.contains(x) by {
        if e1.contains(x) {
            let k = choose|k: int| 0 <= k < e1.len() && e1[k] == x;
            assert(pairs_2[q(k)] == pairs_1[k]);
            assert(e2[q(k)] == x);
        }
        if e2.contains(x) {
            let k = choose|k: int| 0 <= k < e2.len() && e2[k] == x;
            assert(pairs_2[k] == pairs_1[p(k)]);
            assert(e1[p(k)] == x);
        }
    }
    lemma_sort_pairs_distinct(e1);
    lemma_sort_pairs_distinct(e2);
    let s1 = sort_pairs(e1);
    let s2 = sort_pairs(e2);
    assert forall|x: (Seq<u8>, Seq<u8>)| #[trigger] s1.contains(x) <==> s2.contains(x) by {
        assert(s1.contains(x) <==> e1.contains(x));
        assert(s2.contains(x) <==> e2.contains(x));
    }
    lemma_ascending_unique(s1, s2);
}

} // verus!
