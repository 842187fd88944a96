//! RFC 6962 Merkle trees over 32-byte leaves: roots, the canonical sorted
//! leaf set of a chain head, and inclusion-proof verification.
use crate::bytes::{bytes_lt, eq32, lemma_lex_lt_asymmetric, lemma_lex_lt_irreflexive,
    lemma_lex_lt_total, lemma_lex_lt_transitive, lex_lt};
use crate::error::Error;
use crate::hash::{sha256, sha256_spec};
use vstd::prelude::*;

verus! {

/// The byte views of a sequence of 32-byte digests.
pub open spec fn digests(s: Seq<[u8; 32]>) -> Seq<Seq<u8>> {
    Seq::new(s.len(), |i: int| s[i]@)
}

/// Every element is bytewise less than every later one (sorted, no duplicates).
pub open spec fn strictly_sorted(s: Seq<Seq<u8>>) -> bool {
    forall|i: int, j: int| 0 <= i < j < s.len() ==> lex_lt(#[trigger] s[i], #[trigger] s[j])
}

/// The canonical leaf order of a member list: its distinct elements in
/// strictly increasing bytewise order.
pub open spec fn canonical_leaves(members: Seq<Seq<u8>>) -> Seq<Seq<u8>> {
    choose|s: Seq<Seq<u8>>|
        strictly_sorted(s) && same_elements(s, members)
}

/// Two sequences hold the same elements.
pub open spec fn same_elements(a: Seq<Seq<u8>>, b: Seq<Seq<u8>>) -> bool {
    forall|x: Seq<u8>| #![trigger a.contains(x)] #![trigger b.contains(x)] a.contains(x) <==> b.contains(x)
}

/// `x` inserted into the strictly sorted `s`, unless already there.
spec fn insert_unique(s: Seq<Seq<u8>>, x: Seq<u8>) -> Seq<Seq<u8>>
    decreases s.len(),
{
    if s.len() == 0 {
        seq![x]
    } else if s[0] == x {
        s
    } else if lex_lt(x, s[0]) {
        seq![x] + s
    } else {
        seq![s[0]] + insert_unique(s.drop_first(), x)
    }
}

proof fn lemma_insert_unique(s: Seq<Seq<u8>>, x: Seq<u8>)
    requires
        strictly_sorted(s),
    ensures
        strictly_sorted(insert_unique(s, x)),
        forall|y: Seq<u8>| #[trigger] insert_unique(s, x).contains(y) <==> (s.contains(y) || y == x),
    decreases s.len(),
{
    let r = insert_unique(s, x);
    if s.len() == 0 {
        assert(r[0] == x);
    } else if s[0] == x {
    } else if lex_lt(x, s[0]) {
        assert forall|a: int, b: int| 0 <= a < b < r.len() implies lex_lt(
            #[trigger] r[a],
            #[trigger] r[b],
        ) by {
            if a == 0 {
                assert(r[b] == s[b - 1]);
                if b - 1 > 0 {
                    lemma_lex_lt_transitive(x, s[0], s[b - 1]);
                }
            } else {
                assert(r[a] == s[a - 1]);
                assert(r[b] == s[b - 1]);
            }
        }
        assert forall|y: Seq<u8>| #[trigger] r.contains(y) <==> (s.contains(y) || y == x) by {
            if s.contains(y) {
                let q = choose|q: int| 0 <= q < s.len() && s[q] == y;
                assert(r[q + 1] == y);
            }
            if y == x {
                assert(r[0] == y);
            }
            if r.contains(y) {
                let q = choose|q: int| 0 <= q < r.len() && r[q] == y;
                if q > 0 {
                    assert(s[q - 1] == y);
                }
            }
        }
    } else {
        let t = s.drop_first();
        assert forall|a: int, b: int| 0 <= a < b < t.len() implies lex_lt(
            #[trigger] t[a],
            #[trigger] t[b],
        ) by {
            assert(t[a] == s[a + 1]);
            assert(t[b] == s[b + 1]);
        }
        lemma_insert_unique(t, x);
        let it = insert_unique(t, x);
        lemma_lex_lt_total(x, s[0]);
        assert(lex_lt(s[0], x));
        assert forall|a: int, b: int| 0 <= a < b < r.len() implies lex_lt(
            #[trigger] r[a],
            #[trigger] r[b],
        ) by {
            assert(r[b] == it[b - 1]);
            if a == 0 {
                assert(it.contains(it[b - 1]));
                if it[b - 1] != x {
                    assert(t.contains(it[b - 1]));
                    let q = choose|q: int| 0 <= q < t.len() && t[q] == it[b - 1];
                    assert(s[q + 1] == it[b - 1]);
                }
            } else {
                assert(r[a] == it[a - 1]);
            }
        }
        assert forall|y: Seq<u8>| #[trigger] r.contains(y) <==> (s.contains(y) || y == x) by {
            if s.contains(y) {
                let q = choose|q: int| 0 <= q < s.len() && s[q] == y;
                if q == 0 {
                    assert(r[0] == y);
                } else {
                    assert(t[q - 1] == y);
                    assert(it.contains(y));
                    let w = choose|w: int| 0 <= w < it.len() && it[w] == y;
                    assert(r[w + 1] == y);
                }
            }
            if y == x {
                assert(it.contains(y));
                let w = choose|w: int| 0 <= w < it.len() && it[w] == y;
                assert(r[w + 1] == y);
            }
            if r.contains(y) {
                let q = choose|q: int| 0 <= q < r.len() && r[q] == y;
                if q == 0 {
                    assert(s[0] == y);
                } else {
                    assert(it[q - 1] == y);
                    assert(it.contains(y));
                    if y != x {
                        assert(t.contains(y));
                        let w = choose|w: int| 0 <= w < t.len() && t[w] == y;
                        assert(s[w + 1] == y);
                    }
                }
            }
        }
    }
}

/// The distinct elements of `m`, inserted one by one in sorted order.
spec fn insertion_sorted(m: Seq<Seq<u8>>) -> Seq<Seq<u8>>
    decreases m.len(),
{
    if m.len() == 0 {
        Seq::empty()
    } else {
        insert_unique(insertion_sorted(m.drop_last()), m.last())
    }
}

proof fn lemma_insertion_sorted(m: Seq<Seq<u8>>)
    ensures
        strictly_sorted(insertion_sorted(m)),
        same_elements(insertion_sorted(m), m),
    decreases m.len(),
{
    if m.len() > 0 {
        let p = m.drop_last();
        lemma_insertion_sorted(p);
        lemma_insert_unique(insertion_sorted(p), m.last());
        assert forall|y: Seq<u8>| #[trigger] insertion_sorted(m).contains(y) <==> m.contains(y) by {
            if m.contains(y) {
                let q = choose|q: int| 0 <= q < m.len() && m[q] == y;
                if q < m.len() - 1 {
                    assert(p[q] == y);
                }
            }
            if p.contains(y) {
                let q = choose|q: int| 0 <= q < p.len() && p[q] == y;
                assert(m[q] == y);
            }
        }
    }
}

/// Two strictly sorted sequences with the same elements are equal.
pub proof fn lemma_strictly_sorted_unique(a: Seq<Seq<u8>>, b: Seq<Seq<u8>>)
    requires
        strictly_sorted(a),
        strictly_sorted(b),
        same_elements(a, b),
    ensures
        a == b,
    decreases a.len(),
{
    if a.len() == 0 {
        if b.len() > 0 {
            assert(b.contains(b[0]));
        }
        assert(a =~= b);
    } else {
        assert(a.contains(a[0]));
        if b.len() == 0 {
            assert(false);
        }
        assert(b.contains(b[0]));
        let i = choose|i: int| 0 <= i < a.len() && a[i] == b[0];
        let j = choose|j: int| 0 <= j < b.len() && b[j] == a[0];
        if i > 0 {
            assert(lex_lt(a[0], a[i]));
            if j > 0 {
                assert(lex_lt(b[0], b[j]));
                lemma_lex_lt_asymmetric(a[0], b[0]);
            } else {
                lemma_lex_lt_irreflexive(a[0]);
            }
        }
        assert(a[0] == b[0]);
        let ta = a.drop_first();
        let tb = b.drop_first();
        assert forall|p: int, q: int| 0 <= p < q < ta.len() implies lex_lt(
            #[trigger] ta[p],
            #[trigger] ta[q],
        ) by {
            assert(ta[p] == a[p + 1]);
            assert(ta[q] == a[q + 1]);
        }
        assert forall|p: int, q: int| 0 <= p < q < tb.len() implies lex_lt(
            #[trigger] tb[p],
            #[trigger] tb[q],
        ) by {
            assert(tb[p] == b[p + 1]);
            assert(tb[q] == b[q + 1]);
        }
        assert forall|x: Seq<u8>| #[trigger] ta.contains(x) <==> tb.contains(x) by {
            if ta.contains(x) {
                let p = choose|p: int| 0 <= p < ta.len() && ta[p] == x;
                assert(a[p + 1] == x);
                assert(lex_lt(a[0], x));
                lemma_lex_lt_irreflexive(x);
                assert(b.contains(x));
                let q = choose|q: int| 0 <= q < b.len() && b[q] == x;
                assert(q != 0);
                assert(tb[q - 1] == x);
            }
            if tb.contains(x) {
                let p = choose|p: int| 0 <= p < tb.len() && tb[p] == x;
                assert(b[p + 1] == x);
                assert(lex_lt(b[0], x));
                lemma_lex_lt_irreflexive(x);
                assert(a.contains(x));
                let q = choose|q: int| 0 <= q < a.len() && a[q] == x;
                assert(q != 0);
                assert(ta[q - 1] == x);
            }
        }
        lemma_strictly_sorted_unique(ta, tb);
        assert(a =~= seq![a[0]] + ta);
        assert(b =~= seq![b[0]] + tb);
    }
}

/// The canonical leaf order exists for every member list, is strictly
/// sorted, and holds exactly the members.
pub proof fn lemma_canonical_leaves(m: Seq<Seq<u8>>)
    ensures
        strictly_sorted(canonical_leaves(m)),
        same_elements(canonical_leaves(m), m),
{
    lemma_insertion_sorted(m);
    let w = insertion_sorted(m);
    assert(strictly_sorted(w) && same_elements(w, m));
}

/// A strictly sorted sequence with the elements of `m` is its canonical
/// leaf order.
pub proof fn lemma_is_canonical(m: Seq<Seq<u8>>, s: Seq<Seq<u8>>)
    requires
        strictly_sorted(s),
        same_elements(s, m),
    ensures
        s == canonical_leaves(m),
{
    lemma_canonical_leaves(m);
    lemma_strictly_sorted_unique(s, canonical_leaves(m));
}

/// The canonical leaves, and so the chain-head root over them, depend only
/// on the set of members: order and repetition in the member list do not
/// matter.
pub proof fn law_canonical_leaves_set_only(m1: Seq<Seq<u8>>, m2: Seq<Seq<u8>>)
    requires
        same_elements(m1, m2),
    ensures
        canonical_leaves(m1) == canonical_leaves(m2),
        merkle_root_spec(canonical_leaves(m1)) == merkle_root_spec(canonical_leaves(m2)),
{
    lemma_canonical_leaves(m1);
    lemma_canonical_leaves(m2);
    lemma_strictly_sorted_unique(canonical_leaves(m1), canonical_leaves(m2));
}

/// RFC 6962 leaf hash: `SHA-256(0x00 || claim_hash)`.
pub open spec fn leaf_hash_spec(h: Seq<u8>) -> Seq<u8> {
    sha256_spec(seq![0x00u8] + h)
}

/// RFC 6962 interior node hash: `SHA-256(0x01 || left || right)`.
pub open spec fn node_hash_spec(l: Seq<u8>, r: Seq<u8>) -> Seq<u8> {
    sha256_spec(seq![0x01u8] + l + r)
}

/// The largest power of two strictly less than `n` (for `n >= 2`).
pub open spec fn split_spec(n: nat) -> nat
    decreases n,
{
    if n <= 2 {
        1
    } else {
        2 * split_spec(((n + 1) / 2) as nat)
    }
}

pub open spec fn is_pow2(k: nat) -> bool
    decreases k,
{
    if k == 1 {
        true
    } else if k < 2 || k % 2 != 0 {
        false
    } else {
        is_pow2(k / 2)
    }
}

pub proof fn lemma_split_bounds(n: nat)
    requires
        n >= 2,
    ensures
        1 <= split_spec(n) < n <= 2 * split_spec(n),
        is_pow2(split_spec(n)),
    decreases n,
{
    if n > 2 {
        lemma_split_bounds(((n + 1) / 2) as nat);
        let h = split_spec(((n + 1) / 2) as nat);
        assert((2 * h) / 2 == h);
    }
}

/// `k` is the split point of `n` whenever it is a power of two with `k < n <= 2k`.
pub proof fn lemma_split_unique(n: nat, k: nat)
    requires
        is_pow2(k),
        k < n <= 2 * k,
    ensures
        split_spec(n) == k,
    decreases n,
{
    if n > 2 {
        assert(k >= 2);
        assert(k % 2 == 0);
        lemma_split_unique(((n + 1) / 2) as nat, k / 2);
    } else {
        if k >= 2 {
            assert(n > 2);
        }
    }
}

/// The RFC 6962 §2.1 root over `leaves`; the empty set hashes to `SHA-256("")`.
pub open spec fn merkle_root_spec(leaves: Seq<Seq<u8>>) -> Seq<u8>
    decreases leaves.len(),
{
    if leaves.len() == 0 {
        sha256_spec(Seq::empty())
    } else if leaves.len() == 1 {
        leaf_hash_spec(leaves[0])
    } else {
        let k = split_spec(leaves.len());
        proof {
            lemma_split_bounds(leaves.len());
        }
        node_hash_spec(
            merkle_root_spec(leaves.subrange(0, k as int)),
            merkle_root_spec(leaves.subrange(k as int, leaves.len() as int)),
        )
    }
}

/// The RFC 6962 audit-path length for the leaf at `index` in a tree of `size`.
pub open spec fn audit_len(index: nat, size: nat) -> nat
    decreases size,
{
    if size <= 1 {
        0
    } else {
        let k = split_spec(size);
        proof {
            lemma_split_bounds(size);
        }
        if index < k {
            audit_len(index, k) + 1
        } else {
            audit_len((index - k) as nat, (size - k) as nat) + 1
        }
    }
}

/// Strip trailing zero bits from `fan`, shifting `sn` along with it.
pub open spec fn strip_zeros(fan: nat, sn: nat) -> (nat, nat)
    decreases fan,
{
    if fan != 0 && fan % 2 == 0 {
        strip_zeros(fan / 2, sn / 2)
    } else {
        (fan, sn)
    }
}

/// Folding a leaf hash and its audit path bottom-up to a root
/// (RFC 9162 §2.1.3.2): `fan` is the node index and `sn` the last index at
/// the current level. The path must consume the tree exactly.
pub open spec fn fold_path(r: Seq<u8>, fan: nat, sn: nat, proof: Seq<Seq<u8>>) -> Result<Seq<u8>, Error>
    decreases proof.len(),
{
    if proof.len() == 0 {
        if sn != 0 {
            Err(Error::HeadInclusion)
        } else {
            Ok(r)
        }
    } else if sn == 0 {
        Err(Error::HeadInclusion)
    } else if fan % 2 == 1 || fan == sn {
        let (f2, s2) = strip_zeros(fan, sn);
        fold_path(node_hash_spec(proof[0], r), f2 / 2, s2 / 2, proof.drop_first())
    } else {
        fold_path(node_hash_spec(r, proof[0]), fan / 2, sn / 2, proof.drop_first())
    }
}

/// What [`verify_inclusion`] decides.
pub open spec fn inclusion_ok(
    claim_hash: Seq<u8>,
    proof: Seq<Seq<u8>>,
    leaf_index: nat,
    tree_size: nat,
    root: Seq<u8>,
) -> bool {
    &&& leaf_index < tree_size
    &&& proof.len() == audit_len(leaf_index, tree_size)
    &&& fold_path(leaf_hash_spec(claim_hash), leaf_index, (tree_size - 1) as nat, proof) == Ok::<
        Seq<u8>,
        Error,
    >(root)
}

/// The RFC 6962 §2.1.1 audit path `PATH(m, D[n])` for the leaf at index
/// `m`, bottom-up: the sibling subtree roots from the leaf to the root.
pub open spec fn audit_path(m: nat, leaves: Seq<Seq<u8>>) -> Seq<Seq<u8>>
    decreases leaves.len(),
{
    if leaves.len() <= 1 {
        Seq::empty()
    } else {
        let n = leaves.len();
        let k = split_spec(n);
        proof {
            lemma_split_bounds(n);
        }
        if m < k {
            audit_path(m, leaves.subrange(0, k as int)).push(
                merkle_root_spec(leaves.subrange(k as int, n as int)),
            )
        } else {
            audit_path((m - k) as nat, leaves.subrange(k as int, n as int)).push(
                merkle_root_spec(leaves.subrange(0, k as int)),
            )
        }
    }
}

proof fn lemma_audit_path_len(m: nat, leaves: Seq<Seq<u8>>)
    requires
        m < leaves.len(),
    ensures
        audit_path(m, leaves).len() == audit_len(m, leaves.len()),
    decreases leaves.len(),
{
    if leaves.len() > 1 {
        let n = leaves.len();
        let k = split_spec(n);
        lemma_split_bounds(n);
        if m < k {
            lemma_audit_path_len(m, leaves.subrange(0, k as int));
        } else {
            lemma_audit_path_len((m - k) as nat, leaves.subrange(k as int, n as int));
        }
    }
}

pub proof fn lemma_pow2_facts(k: nat)
    requires
        is_pow2(k),
    ensures
        k >= 1,
        k >= 2 ==> k % 2 == 0 && is_pow2(k / 2) && k == 2 * (k / 2),
{
}

/// The path of a leaf in a perfect subtree of `k` leaves, run inside a
/// larger tree whose last index `big_sn` is at least `k`: the same steps,
/// ending at the subtree root one level up from the subtree's top.
proof fn lemma_fold_left_subtree(
    r: Seq<u8>,
    fan: nat,
    k: nat,
    big_sn: nat,
    p: Seq<Seq<u8>>,
    rest: Seq<Seq<u8>>,
    x: Seq<u8>,
)
    requires
        is_pow2(k),
        fan < k,
        k <= big_sn,
        fold_path(r, fan, (k - 1) as nat, p) == Ok::<Seq<u8>, Error>(x),
    ensures
        fold_path(r, fan, big_sn, p + rest) == fold_path(x, 0, big_sn / k, rest),
    decreases p.len(),
{
    lemma_pow2_facts(k);
    if p.len() == 0 {
        assert(p + rest =~= rest);
    } else {
        assert(k >= 2);
        assert((p + rest)[0] == p[0]);
        assert((p + rest).drop_first() =~= p.drop_first() + rest);
        let h = k / 2;
        assert(((k - 1) as nat) / 2 == (h - 1) as nat);
        assert((big_sn / 2) / h == big_sn / k) by {
            vstd::arithmetic::div_mod::lemma_div_denominator(big_sn as int, 2, h as int);
        }
        if fan % 2 == 1 {
            lemma_fold_left_subtree(node_hash_spec(p[0], r), fan / 2, h, big_sn / 2, p.drop_first(), rest, x);
        } else {
            lemma_fold_left_subtree(node_hash_spec(r, p[0]), fan / 2, h, big_sn / 2, p.drop_first(), rest, x);
        }
    }
}

/// Stripping trailing zeros from a node index that carries a high
/// power-of-two bit above the subtree shifts the subtree part alike.
proof fn lemma_strip_shifted(k: nat, fan: nat, sn: nat)
    requires
        is_pow2(k),
        1 <= fan <= sn < k,
        fan % 2 == 1 || fan == sn,
    ensures
        exists|k2: nat|
            is_pow2(k2) && k2 >= 2 && strip_zeros(fan, sn).0 <= strip_zeros(fan, sn).1 < k2 && strip_zeros(
                k + fan,
                k + sn,
            ) == (k2 + strip_zeros(fan, sn).0, k2 + strip_zeros(fan, sn).1),
    decreases fan,
{
    lemma_pow2_facts(k);
    assert(k >= 2);
    if fan % 2 == 1 {
        assert((k + fan) % 2 == 1);
        assert(is_pow2(k) && k >= 2 && strip_zeros(k + fan, k + sn) == (k + strip_zeros(fan, sn).0, k
            + strip_zeros(fan, sn).1));
    } else {
        assert(fan == sn);
        assert((k + fan) % 2 == 0);
        assert((k + fan) / 2 == k / 2 + fan / 2);
        assert((k + sn) / 2 == k / 2 + sn / 2);
        lemma_strip_shifted(k / 2, fan / 2, sn / 2);
    }
}

proof fn lemma_strip_pow2(k: nat)
    requires
        is_pow2(k),
    ensures
        strip_zeros(k, k) == (1nat, 1nat),
    decreases k,
{
    lemma_pow2_facts(k);
    if k >= 2 {
        lemma_strip_pow2(k / 2);
    }
}

/// The path of a leaf in the right subtree (of fewer than `k` leaves), run
/// inside the tree whose left subtree is perfect with `k` leaves: the same
/// steps, with the subtree's node indices offset by `k`, ending on the
/// right edge at a power-of-two index.
proof fn lemma_fold_right_subtree(
    r: Seq<u8>,
    fan: nat,
    sn: nat,
    k: nat,
    p: Seq<Seq<u8>>,
    rest: Seq<Seq<u8>>,
    x: Seq<u8>,
)
    requires
        is_pow2(k),
        fan <= sn < k,
        fold_path(r, fan, sn, p) == Ok::<Seq<u8>, Error>(x),
    ensures
        exists|k2: nat| is_pow2(k2) && fold_path(r, k + fan, k + sn, p + rest) == fold_path(x, k2, k2, rest),
    decreases p.len(),
{
    lemma_pow2_facts(k);
    if p.len() == 0 {
        assert(p + rest =~= rest);
        assert(fold_path(r, k + fan, k + sn, p + rest) == fold_path(x, k, k, rest));
    } else {
        assert(sn != 0);
        assert(k >= 2);
        assert((p + rest)[0] == p[0]);
        assert((p + rest).drop_first() =~= p.drop_first() + rest);
        assert((k + fan) % 2 == fan % 2);
        if fan % 2 == 1 || fan == sn {
            let (f2, s2) = strip_zeros(fan, sn);
            lemma_strip_shifted(k, fan, sn);
            let k2 = choose|k2: nat|
                is_pow2(k2) && k2 >= 2 && f2 <= s2 < k2 && strip_zeros(k + fan, k + sn) == (k2 + f2, k2 + s2);
            lemma_pow2_facts(k2);
            assert((k2 + f2) / 2 == k2 / 2 + f2 / 2);
            assert((k2 + s2) / 2 == k2 / 2 + s2 / 2);
            lemma_fold_right_subtree(node_hash_spec(p[0], r), f2 / 2, s2 / 2, k2 / 2, p.drop_first(), rest, x);
        } else {
            assert((k + fan) / 2 == k / 2 + fan / 2);
            assert((k + sn) / 2 == k / 2 + sn / 2);
            lemma_fold_right_subtree(node_hash_spec(r, p[0]), fan / 2, sn / 2, k / 2, p.drop_first(), rest, x);
        }
    }
}

proof fn lemma_pow2_split(n: nat)
    requires
        n >= 2,
    ensures
        (n - 1) as nat / split_spec(n) == 1,
{
    lemma_split_bounds(n);
    let k = split_spec(n);
    assert(k <= n - 1 < 2 * k);
    vstd::arithmetic::div_mod::lemma_fundamental_div_mod_converse(
        (n - 1) as int,
        k as int,
        1,
        (n - 1 - k) as int,
    );
}

/// An honest audit path folds to the tree's root.
proof fn lemma_audit_path_folds(m: nat, leaves: Seq<Seq<u8>>)
    requires
        m < leaves.len(),
    ensures
        fold_path(leaf_hash_spec(leaves[m as int]), m, (leaves.len() - 1) as nat, audit_path(m, leaves))
            == Ok::<Seq<u8>, Error>(merkle_root_spec(leaves)),
    decreases leaves.len(),
{
    let n = leaves.len();
    if n > 1 {
        let k = split_spec(n);
        lemma_split_bounds(n);
        let left = leaves.subrange(0, k as int);
        let right = leaves.subrange(k as int, n as int);
        let lr = merkle_root_spec(left);
        let rr = merkle_root_spec(right);
        if m < k {
            lemma_audit_path_folds(m, left);
            assert(left[m as int] == leaves[m as int]);
            lemma_fold_left_subtree(
                leaf_hash_spec(leaves[m as int]),
                m,
                k,
                (n - 1) as nat,
                audit_path(m, left),
                seq![rr],
                lr,
            );
            assert(audit_path(m, left) + seq![rr] =~= audit_path(m, leaves));
            lemma_pow2_split(n);
            assert(seq![rr].drop_first() =~= Seq::<Seq<u8>>::empty());
            assert(fold_path(node_hash_spec(lr, rr), 0, 0, seq![rr].drop_first()) == Ok::<Seq<u8>, Error>(
                node_hash_spec(lr, rr),
            ));
            assert(fold_path(lr, 0, 1, seq![rr]) == Ok::<Seq<u8>, Error>(node_hash_spec(lr, rr)));
            assert(merkle_root_spec(leaves) == node_hash_spec(lr, rr));
        } else {
            let mr = (m - k) as nat;
            lemma_audit_path_folds(mr, right);
            assert(right[mr as int] == leaves[m as int]);
            lemma_fold_right_subtree(
                leaf_hash_spec(leaves[m as int]),
                mr,
                (n - k - 1) as nat,
                k,
                audit_path(mr, right),
                seq![lr],
                rr,
            );
            assert(audit_path(mr, right) + seq![lr] =~= audit_path(m, leaves));
            let k2 = choose|k2: nat|
                is_pow2(k2) && fold_path(
                    leaf_hash_spec(leaves[m as int]),
                    k + mr,
                    k + (n - k - 1) as nat,
                    audit_path(mr, right) + seq![lr],
                ) == fold_path(rr, k2, k2, seq![lr]);
            lemma_pow2_facts(k2);
            lemma_strip_pow2(k2);
            assert(seq![lr].drop_first() =~= Seq::<Seq<u8>>::empty());
            assert(fold_path(node_hash_spec(lr, rr), 0, 0, seq![lr].drop_first()) == Ok::<Seq<u8>, Error>(
                node_hash_spec(lr, rr),
            ));
            assert(fold_path(rr, k2, k2, seq![lr]) == Ok::<Seq<u8>, Error>(node_hash_spec(lr, rr)));
            assert(merkle_root_spec(leaves) == node_hash_spec(lr, rr));
        }
    }
}

/// Inclusion proofs are complete: for every tree and every leaf in it, the
/// RFC 6962 audit path of that leaf passes inclusion verification against
/// the tree's root and size.
pub proof fn law_inclusion_complete(leaves: Seq<Seq<u8>>, m: nat)
    requires
        m < leaves.len(),
    ensures
        inclusion_ok(leaves[m as int], audit_path(m, leaves), m, leaves.len(), merkle_root_spec(leaves)),
{
    lemma_audit_path_len(m, leaves);
    lemma_audit_path_folds(m, leaves);
}

/// An inclusion proof vouches for one root: for a fixed claim hash, proof,
/// index and tree size, inclusion verification accepts at most one root.
pub proof fn law_inclusion_unique_root(
    claim_hash: Seq<u8>,
    proof: Seq<Seq<u8>>,
    leaf_index: nat,
    tree_size: nat,
    root_1: Seq<u8>,
    root_2: Seq<u8>,
)
    requires
        inclusion_ok(claim_hash, proof, leaf_index, tree_size, root_1),
        inclusion_ok(claim_hash, proof, leaf_index, tree_size, root_2),
    ensures
        root_1 == root_2,
{
}

/// The audit path of a leaf binds the tree: presented with a member's RFC
/// 6962 audit path, inclusion verification accepts the tree's own root and
/// no other.
pub proof fn law_inclusion_binds_root(leaves: Seq<Seq<u8>>, m: nat, root: Seq<u8>)
    requires
        m < leaves.len(),
        inclusion_ok(leaves[m as int], audit_path(m, leaves), m, leaves.len(), root),
    ensures
        root == merkle_root_spec(leaves),
{
    law_inclusion_complete(leaves, m);
    law_inclusion_unique_root(
        leaves[m as int],
        audit_path(m, leaves),
        m,
        leaves.len(),
        root,
        merkle_root_spec(leaves),
    );
}

/// A single-leaf tree includes only its own leaf: a claim hash passes
/// against a tree of size one exactly when the proof is empty, the index is
/// zero and the root is the root of the tree holding just that claim hash.
pub proof fn law_inclusion_single_leaf(claim_hash: Seq<u8>, proof: Seq<Seq<u8>>, leaf_index: nat, root: Seq<u8>)
    ensures
        inclusion_ok(claim_hash, proof, leaf_index, 1, root) <==> proof.len() == 0 && leaf_index == 0 && root
            == merkle_root_spec(seq![claim_hash]),
{
    assert(audit_len(0, 1) == 0);
}

fn leaf_hash(claim_hash: &[u8; 32]) -> (r: [u8; 32])
    ensures
        r@ == leaf_hash_spec(claim_hash@),
{
    let mut buf: Vec<u8> = Vec::with_capacity(33);
    buf.push(0x00);
    crate::bytes::extend_bytes(&mut buf, claim_hash.as_slice());
    assert(buf@ =~= seq![0x00u8] + claim_hash@);
    sha256(buf.as_slice())
}

pub(crate) fn node_hash(left: &[u8; 32], right: &[u8; 32]) -> (r: [u8; 32])
    ensures
        r@ == node_hash_spec(left@, right@),
{
    let mut buf: Vec<u8> = Vec::with_capacity(65);
    buf.push(0x01);
    crate::bytes::extend_bytes(&mut buf, left.as_slice());
    crate::bytes::extend_bytes(&mut buf, right.as_slice());
    assert(buf@ =~= seq![0x01u8] + left@ + right@);
    sha256(buf.as_slice())
}

/// Largest power of two strictly less than `n` (the RFC 6962 split point),
/// for `n >= 2`. Doubling while the power is below `n - k` never overflows.
fn split(n: usize) -> (k: usize)
    requires
        n >= 2,
    ensures
        k == split_spec(n as nat),
{
    let mut k: usize = 1;
    while k < n - k
        invariant
            n >= 2,
            1 <= k < n,
            is_pow2(k as nat),
        decreases n - k,
    {
        assert(is_pow2((2 * k) as nat)) by {
            assert((2 * k) as nat / 2 == k);
        }
        k = k * 2;
    }
    proof {
        lemma_split_unique(n as nat, k as nat);
    }
    k
}

fn split_u64(n: u64) -> (k: u64)
    requires
        n >= 2,
    ensures
        k == split_spec(n as nat),
{
    let mut k: u64 = 1;
    while k < n - k
        invariant
            n >= 2,
            1 <= k < n,
            is_pow2(k as nat),
        decreases n - k,
    {
        assert(is_pow2((2 * k) as nat)) by {
            assert((2 * k) as nat / 2 == k);
        }
        k = k * 2;
    }
    proof {
        lemma_split_unique(n as nat, k as nat);
    }
    k
}

/// The RFC 6962 §2.1 Merkle root over `leaves`, which must already be sorted
/// and deduplicated (the head's canonical leaf order; use [`sorted_dedup`]).
/// The empty set hashes to `SHA-256("")`.
pub fn merkle_root(leaves: &[[u8; 32]]) -> (r: [u8; 32])
    requires
        strictly_sorted(digests(leaves@)),
    ensures
        r@ == merkle_root_spec(digests(leaves@)),
    decreases leaves@.len(),
{
    let n = leaves.len();
    if n == 0 {
        let empty: Vec<u8> = Vec::new();
        sha256(empty.as_slice())
    } else if n == 1 {
        leaf_hash(&leaves[0])
    } else {
        let k = split(n);
        proof {
            lemma_split_bounds(n as nat);
        }
        let left = vstd::slice::slice_subrange(leaves, 0, k);
        let right = vstd::slice::slice_subrange(leaves, k, n);
        assert(digests(left@) =~= digests(leaves@).subrange(0, k as int));
        assert(digests(right@) =~= digests(leaves@).subrange(k as int, n as int));
        let l = merkle_root(left);
        let r = merkle_root(right);
        node_hash(&l, &r)
    }
}

/// Sort and deduplicate member hashes into the head's canonical leaf order.
pub fn sorted_dedup(members: &[[u8; 32]]) -> (r: Vec<[u8; 32]>)
    ensures
        digests(r@) == canonical_leaves(digests(members@)),
        strictly_sorted(digests(r@)),
        forall|x: Seq<u8>| digests(r@).contains(x) <==> digests(members@).contains(x),
{
    let mut v: Vec<[u8; 32]> = Vec::new();
    let mut i: usize = 0;
    while i < members.len()
        invariant
            0 <= i <= members@.len(),
            strictly_sorted(digests(v@)),
            forall|x: Seq<u8>|
                digests(v@).contains(x) <==> digests(members@.take(i as int)).contains(x),
        decreases members@.len() - i,
    {
        let m = members[i];
        let ghost dv = digests(v@);
        let mut j: usize = 0;
        while j < v.len() && bytes_lt(v[j].as_slice(), m.as_slice())
            invariant
                0 <= j <= v@.len(),
                dv == digests(v@),
                forall|q: int| 0 <= q < j ==> lex_lt(#[trigger] dv[q], m@),
                strictly_sorted(dv),
                forall|x: Seq<u8>|
                    dv.contains(x) <==> digests(members@.take(i as int)).contains(x),
            decreases v@.len() - j,
        {
            j += 1;
        }
        let ghost dm = digests(members@.take(i + 1));
        proof {
            assert(dm =~= digests(members@.take(i as int)).push(m@));
        }
        if j < v.len() && eq32(&v[j], &m) {
            proof {
                assert(dv[j as int] == m@);
                assert(dv == digests(v@));
                assert forall|x: Seq<u8>| dv.contains(x) <==> dm.contains(x) by {
                    if dm.contains(x) {
                        let q = choose|q: int| 0 <= q < dm.len() && dm[q] == x;
                        if q < i {
                            assert(digests(members@.take(i as int))[q] == x);
                        } else {
                            assert(dv[j as int] == x);
                        }
                    }
                    if dv.contains(x) {
                        assert(digests(v@).contains(x));
                        assert(digests(members@.take(i as int)).contains(x));
                        let q = choose|q: int|
                            0 <= q < digests(members@.take(i as int)).len() && digests(
                                members@.take(i as int),
                            )[q] == x;
                        assert(dm[q] == x);
                    }
                }
            }
        } else {
            proof {
                if j < v@.len() {
                    lemma_lex_lt_total(dv[j as int], m@);
                    assert(!lex_lt(dv[j as int], m@));
                    assert(lex_lt(m@, dv[j as int]));
                }
            }
            v.insert(j, m);
            proof {
                let nv = digests(v@);
                assert(nv =~= dv.insert(j as int, m@));
                assert forall|a: int, b: int| 0 <= a < b < nv.len() implies lex_lt(
                    #[trigger] nv[a],
                    #[trigger] nv[b],
                ) by {
                    if b < j {
                    } else if a < j && b == j {
                    } else if a < j && b > j {
                        assert(nv[b] == dv[b - 1]);
                        if b - 1 > j {
                            lemma_lex_lt_transitive(m@, dv[j as int], dv[b - 1]);
                        }
                        lemma_lex_lt_transitive(nv[a], m@, nv[b]);
                    } else if a == j {
                        assert(nv[b] == dv[b - 1]);
                        if b - 1 > j {
                            lemma_lex_lt_transitive(m@, dv[j as int], dv[b - 1]);
                        }
                    } else {
                        assert(nv[a] == dv[a - 1]);
                        assert(nv[b] == dv[b - 1]);
                    }
                }
                assert forall|x: Seq<u8>| nv.contains(x) <==> dm.contains(x) by {
                    if dm.contains(x) {
                        let q = choose|q: int| 0 <= q < dm.len() && dm[q] == x;
                        if q < i {
                            assert(digests(members@.take(i as int))[q] == x);
                            assert(dv.contains(x));
                            let t = choose|t: int| 0 <= t < dv.len() && dv[t] == x;
                            if t < j {
                                assert(nv[t] == x);
                            } else {
                                assert(nv[t + 1] == x);
                            }
                        } else {
                            assert(nv[j as int] == x);
                        }
                    }
                    if nv.contains(x) {
                        let t = choose|t: int| 0 <= t < nv.len() && nv[t] == x;
                        if t < j {
                            assert(dv[t] == x);
                        } else if t == j {
                            assert(dm[i as int] == x);
                        } else {
                            assert(dv[t - 1] == x);
                        }
                        if t != j {
                            assert(dv.contains(x));
                            assert(digests(members@.take(i as int)).contains(x));
                            let q = choose|q: int|
                                0 <= q < digests(members@.take(i as int)).len() && digests(
                                    members@.take(i as int),
                                )[q] == x;
                            assert(dm[q] == x);
                        }
                    }
                }
            }
        }
        i += 1;
    }
    assert(members@.take(i as int) =~= members@);
    proof {
        lemma_is_canonical(digests(members@), digests(v@));
    }
    v
}

/// The RFC 6962 audit-path length for a leaf at `index` in a tree of `size`.
fn audit_path_len(index: u64, size: u64) -> (r: u64)
    ensures
        r == audit_len(index as nat, size as nat),
    decreases size,
{
    if size <= 1 {
        0
    } else {
        let k = split_u64(size);
        proof {
            lemma_split_bounds(size as nat);
            lemma_audit_len_bound(index as nat, size as nat);
        }
        if index < k {
            audit_path_len(index, k) + 1
        } else {
            audit_path_len(index - k, size - k) + 1
        }
    }
}

pub proof fn lemma_audit_len_bound(index: nat, size: nat)
    ensures
        audit_len(index, size) <= size,
    decreases size,
{
    if size > 1 {
        lemma_split_bounds(size);
        let k = split_spec(size);
        lemma_audit_len_bound(index, k);
        lemma_audit_len_bound((index - k) as nat, (size - k) as nat);
    }
}

pub proof fn lemma_fold_path_err(r: Seq<u8>, fan: nat, sn: nat, proof: Seq<Seq<u8>>)
    ensures
        fold_path(r, fan, sn, proof) is Err ==> fold_path(r, fan, sn, proof) == Err::<Seq<u8>, Error>(
            Error::HeadInclusion,
        ),
    decreases proof.len(),
{
    if proof.len() > 0 && sn != 0 {
        if fan % 2 == 1 || fan == sn {
            let (f2, s2) = strip_zeros(fan, sn);
            lemma_fold_path_err(node_hash_spec(proof[0], r), f2 / 2, s2 / 2, proof.drop_first());
        } else {
            lemma_fold_path_err(node_hash_spec(r, proof[0]), fan / 2, sn / 2, proof.drop_first());
        }
    }
}

/// Verify an RFC 6962 inclusion proof (P1–P3). `tree_size` and `root` must
/// come from a head that passed head verification, never supplied
/// independently.
pub fn verify_inclusion(
    claim_hash: &[u8; 32],
    proof: &[[u8; 32]],
    leaf_index: u64,
    tree_size: u64,
    root: &[u8; 32],
) -> (r: Result<(), Error>)
    ensures
        r is Ok <==> inclusion_ok(
            claim_hash@,
            digests(proof@),
            leaf_index as nat,
            tree_size as nat,
            root@,
        ),
        r is Err ==> r == Err::<(), Error>(Error::HeadInclusion),
{
    // P1 — index in range, proof length matches the tree geometry.
    if leaf_index >= tree_size {
        return Err(Error::HeadInclusion);
    }
    if proof.len() as u64 != audit_path_len(leaf_index, tree_size) {
        return Err(Error::HeadInclusion);
    }
    // P2 — recompute the root from the leaf and the path (RFC 6962 §2.1.1).
    proof {
        let leaf = leaf_hash_spec(claim_hash@);
        lemma_fold_path_err(leaf, leaf_index as nat, (tree_size - 1) as nat, digests(proof@));
    }
    let computed = recompute_root(leaf_hash(claim_hash), leaf_index, tree_size - 1, proof)?;
    // P3 — must equal the committed root.
    if eq32(&computed, root) {
        Ok(())
    } else {
        Err(Error::HeadInclusion)
    }
}

/// Fold a leaf and its audit path to a root (RFC 9162 §2.1.3.2). The
/// terminal `sn == 0` check keeps the path consuming the tree exactly.
fn recompute_root(leaf: [u8; 32], fan0: u64, sn0: u64, proof: &[[u8; 32]]) -> (r: Result<
    [u8; 32],
    Error,
>)
    ensures
        match r {
            Ok(h) => fold_path(leaf@, fan0 as nat, sn0 as nat, digests(proof@)) == Ok::<
                Seq<u8>,
                Error,
            >(h@),
            Err(e) => fold_path(leaf@, fan0 as nat, sn0 as nat, digests(proof@)) == Err::<
                Seq<u8>,
                Error,
            >(e),
        },
{
    let mut r = leaf;
    let mut fan = fan0;
    let mut sn = sn0;
    let mut i: usize = 0;
    assert(digests(proof@).skip(0) =~= digests(proof@));
    while i < proof.len()
        invariant
            0 <= i <= proof@.len(),
            fold_path(leaf@, fan0 as nat, sn0 as nat, digests(proof@)) == fold_path(
                r@,
                fan as nat,
                sn as nat,
                digests(proof@).skip(i as int),
            ),
        decreases proof@.len() - i,
    {
        let ghost rest = digests(proof@).skip(i as int);
        assert(rest[0] == proof@[i as int]@);
        assert(rest.drop_first() =~= digests(proof@).skip(i + 1));
        let p = &proof[i];
        if sn == 0 {
            return Err(Error::HeadInclusion);  // path longer than the tree height
        }
        if fan % 2 == 1 || fan == sn {
            r = node_hash(p, &r);
            let ghost (f2, s2) = strip_zeros(fan as nat, sn as nat);
            while fan != 0 && fan % 2 == 0
                invariant
                    strip_zeros(fan as nat, sn as nat) == (f2, s2),
                decreases fan,
            {
                fan = fan / 2;
                sn = sn / 2;
            }
        } else {
            r = node_hash(&r, p);
        }
        fan = fan / 2;
        sn = sn / 2;
        i += 1;
    }
    assert(digests(proof@).skip(i as int) =~= Seq::<Seq<u8>>::empty());
    if sn != 0 {
        return Err(Error::HeadInclusion);  // path shorter than the tree height
    }
    Ok(r)
}

/// Whether `set` holds the digest `x`.
pub(crate) fn contains_digest(set: &[[u8; 32]], x: &[u8; 32]) -> (r: bool)
    ensures
        r == digests(set@).contains(x@),
{
    let mut i: usize = 0;
    while i < set.len()
        invariant
            0 <= i <= set@.len(),
            forall|j: int| 0 <= j < i ==> digests(set@)[j] != x@,
        decreases set@.len() - i,
    {
        if eq32(&set[i], x) {
            assert(digests(set@)[i as int] == x@);
            return true;
        }
        i += 1;
    }
    false
}

/// True if `big` contains every element of `small`.
pub(crate) fn is_superset(big: &[[u8; 32]], small: &[[u8; 32]]) -> (r: bool)
    ensures
        r == forall|x: Seq<u8>| digests(small@).contains(x) ==> digests(big@).contains(x),
{
    let mut i: usize = 0;
    while i < small.len()
        invariant
            0 <= i <= small@.len(),
            forall|q: int| 0 <= q < i ==> digests(big@).contains(#[trigger] digests(small@)[q]),
        decreases small@.len() - i,
    {
        let mut j: usize = 0;
        let mut found = false;
        while j < big.len()
            invariant
                0 <= j <= big@.len(),
                i < small@.len(),
                found ==> digests(big@).contains(small@[i as int]@),
                !found ==> forall|q: int| 0 <= q < j ==> digests(big@)[q] != small@[i as int]@,
            decreases big@.len() - j,
        {
            if eq32(&big[j], &small[i]) {
                assert(digests(big@)[j as int] == small@[i as int]@);
                found = true;
            }
            j += 1;
        }
        if !found {
            proof {
                assert(digests(small@)[i as int] == small@[i as int]@);
                assert(!digests(big@).contains(digests(small@)[i as int]));
            }
            return false;
        }
        assert(digests(small@)[i as int] == small@[i as int]@);
        i += 1;
    }
    assert forall|x: Seq<u8>| digests(small@).contains(x) implies digests(big@).contains(x) by {
        let q = choose|q: int| 0 <= q < digests(small@).len() && digests(small@)[q] == x;
    }
    true
}

} // verus!
