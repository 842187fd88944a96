//! Witnessed-log client: checkpoints, witness co-signatures, consistency
//! proofs, and split-view detection.
//!
//! The witness set and threshold are caller policy: the client enforces the
//! format and the distinct-witness count.
use crate::bytes::{byte_vecs, bytes_eq, eq32, text_eq};
use crate::cbor::{decode_canonical, decode_canonical_spec};
use crate::claim::{party_entry, party_entry_spec, Party, PartyModel};
use crate::cose1::{self, alg_kid_spec, body_spec, lemma_body_spec, signature_ok_spec, FieldKind};
use crate::error::Error;
use crate::hash::{sha256, sha256_spec};
use crate::head::ForkVerdict;
use crate::merkle::{digests, is_pow2, lemma_pow2_facts, lemma_split_bounds, lemma_split_unique, merkle_root_spec, node_hash, node_hash_spec, same_elements, split_spec};
use crate::sig::cose_id_spec;
use vstd::prelude::*;

verus! {

/// Shift `node` and `last` right past the trailing one bits of `node`.
pub open spec fn strip_ones(node: nat, last: nat) -> (nat, nat)
    decreases node,
{
    if node % 2 == 1 {
        strip_ones(node / 2, last / 2)
    } else {
        (node, last)
    }
}

/// The first folding phase of RFC 6962 §2.1.2 verification, consuming proof
/// nodes from index `i`: the reconstructed old and new hashes and the next
/// unread index.
pub open spec fn fold_old_new(
    node: nat,
    last: nat,
    old_h: Seq<u8>,
    new_h: Seq<u8>,
    proof: Seq<Seq<u8>>,
    i: nat,
) -> Result<(Seq<u8>, Seq<u8>, nat), Error>
    decreases node,
{
    if node == 0 {
        Ok((old_h, new_h, i))
    } else if node % 2 == 1 {
        if i >= proof.len() {
            Err(Error::LogConsistency)
        } else {
            fold_old_new(
                node / 2,
                last / 2,
                node_hash_spec(proof[i as int], old_h),
                node_hash_spec(proof[i as int], new_h),
                proof,
                i + 1,
            )
        }
    } else if node < last {
        if i >= proof.len() {
            Err(Error::LogConsistency)
        } else {
            fold_old_new(node / 2, last / 2, old_h, node_hash_spec(new_h, proof[i as int]), proof, i + 1)
        }
    } else {
        fold_old_new(node / 2, last / 2, old_h, new_h, proof, i)
    }
}

/// The second folding phase: extend the new hash up to the new root.
pub open spec fn fold_new(last: nat, new_h: Seq<u8>, proof: Seq<Seq<u8>>, i: nat) -> Result<
    (Seq<u8>, nat),
    Error,
>
    decreases last,
{
    if last == 0 {
        Ok((new_h, i))
    } else if i >= proof.len() {
        Err(Error::LogConsistency)
    } else {
        fold_new(last / 2, node_hash_spec(new_h, proof[i as int]), proof, i + 1)
    }
}

/// Whether [`verify_log_consistency`] accepts: the size-`old_size` log is a
/// prefix of the size-`new_size` log according to `proof` (RFC 6962 §2.1.2).
pub open spec fn consistency_ok(
    old_size: nat,
    old_root: Seq<u8>,
    new_size: nat,
    new_root: Seq<u8>,
    proof: Seq<Seq<u8>>,
) -> bool {
    if old_size > new_size {
        false
    } else if old_size == new_size {
        proof.len() == 0 && old_root == new_root
    } else if old_size == 0 {
        proof.len() == 0
    } else {
        let (node, last) = strip_ones((old_size - 1) as nat, (new_size - 1) as nat);
        let seeded = node != 0;
        if seeded && proof.len() == 0 {
            false
        } else {
            let seed = if seeded {
                proof[0]
            } else {
                old_root
            };
            let start: nat = if seeded {
                1
            } else {
                0
            };
            match fold_old_new(node, last, seed, seed, proof, start) {
                Err(_) => false,
                Ok((old_h, new_h, i)) => {
                    let (_, last2) = strip_all(node, last);
                    match fold_new(last2, new_h, proof, i) {
                        Err(_) => false,
                        Ok((new_h2, j)) => j == proof.len() && old_h == old_root && new_h2
                            == new_root,
                    }
                },
            }
        }
    }
}

/// `node` and `last` after the first phase, which halves both until `node`
/// is zero.
pub open spec fn strip_all(node: nat, last: nat) -> (nat, nat)
    decreases node,
{
    if node == 0 {
        (node, last)
    } else {
        strip_all(node / 2, last / 2)
    }
}

// ---------------------------------------------------------------------------
// Completeness of consistency verification
// ---------------------------------------------------------------------------

/// RFC 6962 §2.1.2 `SUBPROOF(m, D[n], b)`: the nodes that prove the first
/// `m` leaves a prefix of `leaves`, bottom-up.
pub open spec fn subproof(m: nat, leaves: Seq<Seq<u8>>, b: bool) -> Seq<Seq<u8>>
    decreases leaves.len(),
{
    let n = leaves.len();
    if m >= n {
        if b {
            Seq::empty()
        } else {
            seq![merkle_root_spec(leaves)]
        }
    } else if n <= 1 {
        Seq::empty()
    } else {
        let k = split_spec(n);
        proof {
            lemma_split_bounds(n);
        }
        if m <= k {
            subproof(m, leaves.subrange(0, k as int), b).push(merkle_root_spec(leaves.subrange(k as int, n as int)))
        } else {
            subproof((m - k) as nat, leaves.subrange(k as int, n as int), false).push(
                merkle_root_spec(leaves.subrange(0, k as int)),
            )
        }
    }
}

/// RFC 6962 §2.1.2 `PROOF(m, D[n])`: the consistency proof that the log of
/// the first `m` leaves is a prefix of the log `leaves`.
pub open spec fn consistency_proof(m: nat, leaves: Seq<Seq<u8>>) -> Seq<Seq<u8>> {
    subproof(m, leaves, true)
}

/// The verification fold, both phases in one: from node index `node` and
/// last index `last` at the current level, the old and new hashes so far,
/// consuming the proof from the front; `None` if the proof runs out or
/// has nodes left over.
spec fn cfold(node: nat, last: nat, o: Seq<u8>, w: Seq<u8>, p: Seq<Seq<u8>>) -> Option<(Seq<u8>, Seq<u8>)>
    decreases last,
{
    if last == 0 {
        if p.len() == 0 {
            Some((o, w))
        } else {
            None
        }
    } else if node % 2 == 1 {
        if p.len() == 0 {
            None
        } else {
            cfold(node / 2, last / 2, node_hash_spec(p[0], o), node_hash_spec(p[0], w), p.drop_first())
        }
    } else if node < last {
        if p.len() == 0 {
            None
        } else {
            cfold(node / 2, last / 2, o, node_hash_spec(w, p[0]), p.drop_first())
        }
    } else {
        cfold(node / 2, last / 2, o, w, p)
    }
}

/// The two phases, read as one result.
spec fn phases(node: nat, last: nat, o: Seq<u8>, w: Seq<u8>, proof: Seq<Seq<u8>>, i: nat) -> Option<
    (Seq<u8>, Seq<u8>),
> {
    match fold_old_new(node, last, o, w, proof, i) {
        Err(_) => None,
        Ok((o1, w1, i1)) => match fold_new(strip_all(node, last).1, w1, proof, i1) {
            Err(_) => None,
            Ok((w2, j)) => if j == proof.len() {
                Some((o1, w2))
            } else {
                None
            },
        },
    }
}

proof fn lemma_cfold_tail(last: nat, o: Seq<u8>, w: Seq<u8>, proof: Seq<Seq<u8>>, i: nat)
    requires
        i <= proof.len(),
    ensures
        cfold(0, last, o, w, proof.skip(i as int)) == match fold_new(last, w, proof, i) {
            Err(_) => None,
            Ok((w2, j)) => if j == proof.len() {
                Some((o, w2))
            } else {
                None
            },
        },
    decreases last,
{
    let p = proof.skip(i as int);
    if last == 0 {
        if i == proof.len() {
            assert(p.len() == 0);
        }
    } else if i < proof.len() {
        assert(p[0] == proof[i as int]);
        assert(p.drop_first() =~= proof.skip((i + 1) as int));
        lemma_cfold_tail(last / 2, o, node_hash_spec(w, proof[i as int]), proof, i + 1);
    }
}

proof fn lemma_cfold_phases(node: nat, last: nat, o: Seq<u8>, w: Seq<u8>, proof: Seq<Seq<u8>>, i: nat)
    requires
        node <= last,
        i <= proof.len(),
    ensures
        cfold(node, last, o, w, proof.skip(i as int)) == phases(node, last, o, w, proof, i),
    decreases node,
{
    let p = proof.skip(i as int);
    if node == 0 {
        lemma_cfold_tail(last, o, w, proof, i);
    } else {
        if i < proof.len() {
            assert(p[0] == proof[i as int]);
            assert(p.drop_first() =~= proof.skip((i + 1) as int));
        }
        if node % 2 == 1 {
            if i < proof.len() {
                lemma_cfold_phases(
                    node / 2,
                    last / 2,
                    node_hash_spec(proof[i as int], o),
                    node_hash_spec(proof[i as int], w),
                    proof,
                    i + 1,
                );
            }
        } else if node < last {
            if i < proof.len() {
                lemma_cfold_phases(node / 2, last / 2, o, node_hash_spec(w, proof[i as int]), proof, i + 1);
            }
        } else {
            lemma_cfold_phases(node / 2, last / 2, o, w, proof, i);
        }
    }
}

proof fn lemma_strip_ones_node(a: nat, b1: nat, b2: nat)
    ensures
        strip_ones(a, b1).0 == strip_ones(a, b2).0,
    decreases a,
{
    if a % 2 == 1 {
        lemma_strip_ones_node(a / 2, b1 / 2, b2 / 2);
    }
}

proof fn lemma_strip_ones_le(a: nat, b: nat)
    requires
        a <= b,
    ensures
        strip_ones(a, b).0 <= strip_ones(a, b).1,
    decreases a,
{
    if a % 2 == 1 {
        lemma_strip_ones_le(a / 2, b / 2);
    }
}

proof fn lemma_strip_ones_full(k: nat)
    requires
        is_pow2(k),
    ensures
        strip_ones((k - 1) as nat, (k - 1) as nat) == (0nat, 0nat),
    decreases k,
{
    lemma_pow2_facts(k);
    if k >= 2 {
        assert(((k - 1) as nat) / 2 == (k / 2 - 1) as nat);
        lemma_strip_ones_full(k / 2);
    }
}

/// Stripping inside a perfect left subtree of `k` leaves and inside the
/// whole tree (last index `big`) shifts by the same amount.
proof fn lemma_strip_left(a: nat, k: nat, big: nat)
    requires
        is_pow2(k),
        a < k,
        k <= big,
    ensures
        strip_ones(a, (k - 1) as nat).0 == strip_ones(a, big).0,
        exists|kk: nat|
            is_pow2(kk) && strip_ones(a, (k - 1) as nat).1 == kk - 1 && kk <= strip_ones(a, big).1 && strip_ones(
                a,
                big,
            ).1 / kk == big / k,
    decreases a,
{
    lemma_pow2_facts(k);
    if a % 2 == 1 {
        assert(k >= 2);
        assert(((k - 1) as nat) / 2 == (k / 2 - 1) as nat);
        lemma_strip_left(a / 2, k / 2, big / 2);
        assert((big / 2) / (k / 2) == big / k) by {
            vstd::arithmetic::div_mod::lemma_div_denominator(big as int, 2, (k / 2) as int);
        }
    } else {
        assert(is_pow2(k) && strip_ones(a, (k - 1) as nat).1 == k - 1 && k <= strip_ones(a, big).1 && strip_ones(
            a,
            big,
        ).1 / k == big / k);
    }
}

/// Stripping inside a right subtree whose indices sit above a perfect left
/// subtree of `k` leaves shifts the offset along.
proof fn lemma_strip_right(a: nat, b: nat, k: nat)
    requires
        is_pow2(k),
        a <= b < k,
        a + 1 < k,
    ensures
        exists|kk: nat|
            is_pow2(kk) && kk > strip_ones(a, b).1 && strip_ones(k + a, k + b) == (kk + strip_ones(a, b).0, kk
                + strip_ones(a, b).1),
    decreases a,
{
    lemma_pow2_facts(k);
    assert(k >= 2);
    lemma_strip_ones_le(a, b);
    if a % 2 == 1 {
        assert((k + a) % 2 == 1);
        assert((k + a) / 2 == k / 2 + a / 2);
        assert((k + b) / 2 == k / 2 + b / 2);
        lemma_strip_right(a / 2, b / 2, k / 2);
    } else {
        assert((k + a) % 2 == 0);
        assert(is_pow2(k) && k > strip_ones(a, b).1 && strip_ones(k + a, k + b) == (k + strip_ones(a, b).0, k
            + strip_ones(a, b).1));
    }
}

/// A run inside a perfect left subtree embeds in the run over the whole tree.
proof fn lemma_cfold_left(
    x: nat,
    kk: nat,
    lp: nat,
    o: Seq<u8>,
    w: Seq<u8>,
    p: Seq<Seq<u8>>,
    rest: Seq<Seq<u8>>,
    o2: Seq<u8>,
    w2: Seq<u8>,
)
    requires
        is_pow2(kk),
        x < kk,
        kk <= lp,
        cfold(x, (kk - 1) as nat, o, w, p) == Some((o2, w2)),
    ensures
        cfold(x, lp, o, w, p + rest) == cfold(0, lp / kk, o2, w2, rest),
    decreases p.len(), kk,
{
    lemma_pow2_facts(kk);
    if kk == 1 {
        assert(p.len() == 0);
        assert(p + rest =~= rest);
    } else {
        let h = kk / 2;
        assert(((kk - 1) as nat) / 2 == (h - 1) as nat);
        assert((lp / 2) / h == lp / kk) by {
            vstd::arithmetic::div_mod::lemma_div_denominator(lp as int, 2, h as int);
        }
        if p.len() > 0 {
            assert((p + rest)[0] == p[0]);
            assert((p + rest).drop_first() =~= p.drop_first() + rest);
        }
        if x % 2 == 1 {
            lemma_cfold_left(x / 2, h, lp / 2, node_hash_spec(p[0], o), node_hash_spec(p[0], w), p.drop_first(), rest, o2, w2);
        } else {
            assert(x < kk - 1);
            lemma_cfold_left(x / 2, h, lp / 2, o, node_hash_spec(w, p[0]), p.drop_first(), rest, o2, w2);
        }
    }
}

/// A run inside a right subtree embeds in the run over the whole tree,
/// ending on the right edge at a power-of-two index.
proof fn lemma_cfold_right(
    x: nat,
    y: nat,
    kk: nat,
    o: Seq<u8>,
    w: Seq<u8>,
    p: Seq<Seq<u8>>,
    rest: Seq<Seq<u8>>,
    o2: Seq<u8>,
    w2: Seq<u8>,
)
    requires
        is_pow2(kk),
        x <= y < kk,
        cfold(x, y, o, w, p) == Some((o2, w2)),
    ensures
        exists|k2: nat| is_pow2(k2) && cfold(kk + x, kk + y, o, w, p + rest) == cfold(k2, k2, o2, w2, rest),
    decreases y,
{
    lemma_pow2_facts(kk);
    if y == 0 {
        assert(p.len() == 0);
        assert(p + rest =~= rest);
        assert(cfold(kk + x, kk + y, o, w, p + rest) == cfold(kk, kk, o2, w2, rest));
    } else {
        assert(kk >= 2);
        assert((kk + x) % 2 == x % 2);
        assert((kk + x) / 2 == kk / 2 + x / 2);
        assert((kk + y) / 2 == kk / 2 + y / 2);
        if p.len() > 0 {
            assert((p + rest)[0] == p[0]);
            assert((p + rest).drop_first() =~= p.drop_first() + rest);
        }
        if x % 2 == 1 {
            lemma_cfold_right(x / 2, y / 2, kk / 2, node_hash_spec(p[0], o), node_hash_spec(p[0], w), p.drop_first(), rest, o2, w2);
        } else if x < y {
            lemma_cfold_right(x / 2, y / 2, kk / 2, o, node_hash_spec(w, p[0]), p.drop_first(), rest, o2, w2);
        } else {
            lemma_cfold_right(x / 2, y / 2, kk / 2, o, w, p, rest, o2, w2);
        }
    }
}

proof fn lemma_cfold_top(k2: nat, o: Seq<u8>, w: Seq<u8>, l: Seq<u8>)
    requires
        is_pow2(k2),
    ensures
        cfold(k2, k2, o, w, seq![l]) == Some((node_hash_spec(l, o), node_hash_spec(l, w))),
    decreases k2,
{
    lemma_pow2_facts(k2);
    if k2 == 1 {
        assert(seq![l].drop_first() =~= Seq::<Seq<u8>>::empty());
        assert(cfold(0, 0, node_hash_spec(l, o), node_hash_spec(l, w), seq![l].drop_first()) == Some(
            (node_hash_spec(l, o), node_hash_spec(l, w)),
        ));
    } else {
        lemma_cfold_top(k2 / 2, o, w, l);
    }
}

/// The subproof of a prefix folds, from the stripped position of the old
/// tree's last leaf, to the old and new roots. Without `b` the proof
/// carries its own seed (the subtree root it starts from).
proof fn lemma_subproof_folds(m: nat, leaves: Seq<Seq<u8>>, b: bool)
    requires
        1 <= m <= leaves.len(),
        m == leaves.len() ==> is_pow2(m),
        b ==> strip_ones((m - 1) as nat, (leaves.len() - 1) as nat).0 == 0,
    ensures
        !b ==> subproof(m, leaves, b).len() >= 1,
        ({
            let (node, last) = strip_ones((m - 1) as nat, (leaves.len() - 1) as nat);
            let p = subproof(m, leaves, b);
            let seed = if b {
                merkle_root_spec(leaves.subrange(0, m as int))
            } else {
                p[0]
            };
            let rest = if b {
                p
            } else {
                p.drop_first()
            };
            cfold(node, last, seed, seed, rest) == Some(
                (merkle_root_spec(leaves.subrange(0, m as int)), merkle_root_spec(leaves)),
            )
        }),
    decreases leaves.len(),
{
    let n = leaves.len();
    if m == n {
        lemma_strip_ones_full(n);
        assert(leaves.subrange(0, m as int) =~= leaves);
        if !b {
            assert(seq![merkle_root_spec(leaves)].drop_first() =~= Seq::<Seq<u8>>::empty());
        }
    } else {
        let k = split_spec(n);
        lemma_split_bounds(n);
        let left = leaves.subrange(0, k as int);
        let right = leaves.subrange(k as int, n as int);
        let lr = merkle_root_spec(left);
        let rr = merkle_root_spec(right);
        assert(merkle_root_spec(leaves) == node_hash_spec(lr, rr));
        let (node, last) = strip_ones((m - 1) as nat, (n - 1) as nat);
        if m <= k {
            lemma_strip_ones_node((m - 1) as nat, (k - 1) as nat, (n - 1) as nat);
            lemma_subproof_folds(m, left, b);
            assert(left.subrange(0, m as int) =~= leaves.subrange(0, m as int));
            let pc = subproof(m, left, b);
            let p = subproof(m, leaves, b);
            assert(p == pc.push(rr));
            assert(p =~= pc + seq![rr]);
            let seed = if b {
                merkle_root_spec(leaves.subrange(0, m as int))
            } else {
                pc[0]
            };
            let rest_c = if b {
                pc
            } else {
                pc.drop_first()
            };
            if !b {
                assert(p[0] == pc[0]);
                assert(p.drop_first() =~= rest_c + seq![rr]);
            }
            let ol = merkle_root_spec(leaves.subrange(0, m as int));
            lemma_strip_left((m - 1) as nat, k, (n - 1) as nat);
            lemma_strip_ones_le((m - 1) as nat, (k - 1) as nat);
            let (x, lc) = strip_ones((m - 1) as nat, (k - 1) as nat);
            let kk = choose|kk: nat|
                is_pow2(kk) && lc == kk - 1 && kk <= last && last / kk == (n - 1) as nat / k;
            lemma_cfold_left(x, kk, last, seed, seed, rest_c, seq![rr], ol, lr);
            lemma_pow2_facts(kk);
            assert((n - 1) as nat / k == 1) by {
                vstd::arithmetic::div_mod::lemma_fundamental_div_mod_converse(
                    (n - 1) as int,
                    k as int,
                    1,
                    (n - 1 - k) as int,
                );
            }
            assert(seq![rr].drop_first() =~= Seq::<Seq<u8>>::empty());
            assert(cfold(0, 0, ol, node_hash_spec(lr, rr), seq![rr].drop_first()) == Some(
                (ol, node_hash_spec(lr, rr)),
            ));
            assert(cfold(0, 1, ol, lr, seq![rr]) == Some((ol, node_hash_spec(lr, rr))));
        } else {
            let mr = (m - k) as nat;
            // Going right, the old tree is not a perfect left subtree.
            lemma_strip_right((m - 1 - k) as nat, (n - 1 - k) as nat, k);
            lemma_strip_ones_le((m - 1 - k) as nat, (n - 1 - k) as nat);
            let (x, y) = strip_ones((m - 1 - k) as nat, (n - 1 - k) as nat);
            let kk = choose|kk: nat|
                is_pow2(kk) && kk > y && strip_ones(k + (m - 1 - k) as nat, k + (n - 1 - k) as nat) == (kk + x, kk + y);
            lemma_pow2_facts(kk);
            assert(k + (m - 1 - k) as nat == (m - 1) as nat);
            assert(k + (n - 1 - k) as nat == (n - 1) as nat);
            assert(!b);
            lemma_subproof_folds(mr, right, false);
            let pc = subproof(mr, right, false);
            let p = subproof(m, leaves, b);
            assert(p == pc.push(lr));
            assert(p[0] == pc[0]);
            assert(p.drop_first() =~= pc.drop_first() + seq![lr]);
            assert(right.subrange(0, mr as int) =~= leaves.subrange(k as int, m as int));
            let old_right = merkle_root_spec(leaves.subrange(k as int, m as int));
            lemma_cfold_right(x, y, kk, pc[0], pc[0], pc.drop_first(), seq![lr], old_right, rr);
            let k2 = choose|k2: nat|
                is_pow2(k2) && cfold(kk + x, kk + y, pc[0], pc[0], pc.drop_first() + seq![lr]) == cfold(
                    k2,
                    k2,
                    old_right,
                    rr,
                    seq![lr],
                );
            lemma_cfold_top(k2, old_right, rr, lr);
            // The old tree splits at the same point.
            let old = leaves.subrange(0, m as int);
            lemma_split_unique(m, k);
            assert(old.subrange(0, k as int) =~= left);
            assert(old.subrange(k as int, m as int) =~= leaves.subrange(k as int, m as int));
            assert(merkle_root_spec(old) == node_hash_spec(lr, old_right));
        }
    }
}

/// Once the old tree is not a perfect left subtree, the proof does not
/// depend on the starting flag.
proof fn lemma_subproof_seeded(m: nat, leaves: Seq<Seq<u8>>)
    requires
        1 <= m < leaves.len(),
        strip_ones((m - 1) as nat, (leaves.len() - 1) as nat).0 != 0,
    ensures
        subproof(m, leaves, true) == subproof(m, leaves, false),
    decreases leaves.len(),
{
    let n = leaves.len();
    let k = split_spec(n);
    lemma_split_bounds(n);
    if m <= k {
        lemma_strip_ones_node((m - 1) as nat, (k - 1) as nat, (n - 1) as nat);
        if m == k {
            lemma_strip_ones_full(k);
        } else {
            lemma_subproof_seeded(m, leaves.subrange(0, k as int));
        }
    }
}

/// Consistency proofs are complete: for every log and every non-empty
/// proper prefix of it, the RFC 6962 consistency proof passes verification
/// between the prefix's root and size and the log's root and size. Honest
/// growth of a witnessed log is therefore never reported as a fork.
pub proof fn law_consistency_complete(leaves: Seq<Seq<u8>>, m: nat)
    requires
        0 < m < leaves.len(),
    ensures
        consistency_ok(
            m,
            merkle_root_spec(leaves.subrange(0, m as int)),
            leaves.len(),
            merkle_root_spec(leaves),
            consistency_proof(m, leaves),
        ),
{
    let n = leaves.len();
    let (node, last) = strip_ones((m - 1) as nat, (n - 1) as nat);
    lemma_strip_ones_le((m - 1) as nat, (n - 1) as nat);
    let proof = consistency_proof(m, leaves);
    let old_root = merkle_root_spec(leaves.subrange(0, m as int));
    if node == 0 {
        lemma_subproof_folds(m, leaves, true);
        assert(proof.skip(0) =~= proof);
        lemma_cfold_phases(node, last, old_root, old_root, proof, 0);
    } else {
        lemma_subproof_seeded(m, leaves);
        lemma_subproof_folds(m, leaves, false);
        assert(proof.skip(1) =~= proof.drop_first());
        lemma_cfold_phases(node, last, proof[0], proof[0], proof, 1);
    }
}

fn ok_if(cond: bool) -> (r: Result<(), Error>)
    ensures
        r is Ok <==> cond,
        r is Err ==> r == Err::<(), Error>(Error::LogConsistency),
{
    if cond {
        Ok(())
    } else {
        Err(Error::LogConsistency)
    }
}

/// Verify an RFC 6962 §2.1.2 consistency proof that the size-`old_size`
/// head-log is a prefix of the size-`new_size` head-log. The roots and sizes
/// must come from verified checkpoints, never supplied independently.
///
/// Boundaries: a shrunk log (`old_size > new_size`) is never consistent; the
/// empty log is a prefix of anything (empty proof); equal sizes require
/// equal roots and an empty proof.
#[verifier::loop_isolation(false)]
pub fn verify_log_consistency(
    old_size: u64,
    old_root: &[u8; 32],
    new_size: u64,
    new_root: &[u8; 32],
    proof: &[[u8; 32]],
) -> (r: Result<(), Error>)
    ensures
        r is Ok <==> consistency_ok(
            old_size as nat,
            old_root@,
            new_size as nat,
            new_root@,
            digests(proof@),
        ),
        r is Err ==> r == Err::<(), Error>(Error::LogConsistency),
{
    let ghost ps = digests(proof@);
    if old_size > new_size {
        return Err(Error::LogConsistency);
    }
    if old_size == new_size {
        return ok_if(proof.len() == 0 && eq32(old_root, new_root));
    }
    if old_size == 0 {
        // The empty tree is a prefix of every tree; the proof carries nothing.
        return ok_if(proof.len() == 0);
    }
    // 0 < old_size < new_size
    let mut node = old_size - 1;
    let mut last = new_size - 1;
    while node % 2 == 1
        invariant
            strip_ones(node as nat, last as nat) == strip_ones(
                (old_size - 1) as nat,
                (new_size - 1) as nat,
            ),
        decreases node,
    {
        node = node / 2;
        last = last / 2;
    }
    let ghost node0 = node as nat;
    let ghost last0 = last as nat;
    let mut i: usize = 0;
    // When `node` is non-zero the old tree is not a left-complete subtree, so
    // its root is reconstructed from the proof's seed; otherwise the seed is
    // old_root.
    let mut old_hash: [u8; 32];
    let mut new_hash: [u8; 32];
    if node != 0 {
        if proof.len() == 0 {
            return Err(Error::LogConsistency);
        }
        old_hash = proof[0];
        new_hash = proof[0];
        i = 1;
    } else {
        old_hash = *old_root;
        new_hash = *old_root;
    }
    assert(ps.len() == proof@.len());
    let ghost seed = old_hash@;
    while node != 0
        invariant
            ps == digests(proof@),
            0 <= i <= proof@.len(),
            fold_old_new(node0, last0, seed, seed, ps, if node0 != 0 {
                1
            } else {
                0
            }) == fold_old_new(node as nat, last as nat, old_hash@, new_hash@, ps, i as nat),
            strip_all(node0, last0) == strip_all(node as nat, last as nat),
        decreases node,
    {
        if node % 2 == 1 {
            if i >= proof.len() {
                return Err(Error::LogConsistency);
            }
            let sib = &proof[i];
            old_hash = node_hash(sib, &old_hash);
            new_hash = node_hash(sib, &new_hash);
            i += 1;
        } else if node < last {
            if i >= proof.len() {
                return Err(Error::LogConsistency);
            }
            let sib = &proof[i];
            new_hash = node_hash(&new_hash, sib);
            i += 1;
        }
        // node == last: a left child with no right sibling — consume nothing.
        node = node / 2;
        last = last / 2;
    }
    let ghost old_done = old_hash@;
    let ghost new_mid = new_hash@;
    let ghost i_mid = i as nat;
    while last != 0
        invariant
            ps == digests(proof@),
            0 <= i <= proof@.len(),
            fold_new(strip_all(node0, last0).1, new_mid, ps, i_mid) == fold_new(
                last as nat,
                new_hash@,
                ps,
                i as nat,
            ),
        decreases last,
    {
        if i >= proof.len() {
            return Err(Error::LogConsistency);
        }
        let sib = &proof[i];
        new_hash = node_hash(&new_hash, sib);
        i += 1;
        last = last / 2;
    }
    // Reject leftover proof nodes: the proof must be exactly the tree geometry.
    if i < proof.len() {
        return Err(Error::LogConsistency);
    }
    ok_if(eq32(&old_hash, old_root) && eq32(&new_hash, new_root))
}

// ---------------------------------------------------------------------------
// Checkpoints and witness co-signatures
// ---------------------------------------------------------------------------

/// The expected checkpoint domain separator.
pub const CKPT_DOMAIN: &'static str = "BCF-CKPT/1";

/// The expected witness co-signature domain separator.
pub const COSIG_DOMAIN: &'static str = "BCF-COSIG/1";

/// A witnessed checkpoint (a signed tree head over a publisher's head-log).
#[derive(Debug, Clone, PartialEq, Eq)]
pub struct Checkpoint {
    /// The chain whose head-log this checkpoint commits to.
    pub chain_id: [u8; 32],
    /// Number of head leaves (epochs) the log has published.
    pub tree_size: u64,
    /// RFC 6962 root over the head leaves, in epoch order.
    pub log_root: [u8; 32],
    /// Checkpoint time (POSIX seconds; advisory).
    pub published_at: i128,
    /// The log owner and signer: half of the log identity `(publisher, chain)`.
    pub publisher: Party,
}

/// The content of a verified checkpoint.
pub ghost struct CheckpointModel {
    pub chain_id: Seq<u8>,
    pub tree_size: nat,
    pub log_root: Seq<u8>,
    pub published_at: int,
    pub publisher: PartyModel,
}

impl View for Checkpoint {
    type V = CheckpointModel;

    open spec fn view(&self) -> CheckpointModel {
        CheckpointModel {
            chain_id: self.chain_id@,
            tree_size: self.tree_size as nat,
            log_root: self.log_root@,
            published_at: self.published_at as int,
            publisher: self.publisher@,
        }
    }
}

/// The co-signature body: {1: domain, 2: checkpoint hash, 3: witness,
/// 4: observed_at}.
pub open spec fn cosig_kinds() -> Seq<FieldKind> {
    seq![FieldKind::Text, FieldKind::Bytes32, FieldKind::Any, FieldKind::Int]
}

/// The checkpoint body: {1: domain, 2: chain_id, 3: tree_size, 4: log_root,
/// 5: published_at, 6: publisher}.
pub open spec fn ckpt_kinds() -> Seq<FieldKind> {
    seq![
        FieldKind::Text,
        FieldKind::Bytes32,
        FieldKind::Int,
        FieldKind::Bytes32,
        FieldKind::Int,
        FieldKind::Any,
    ]
}

/// The witness key a co-signature contributes, if it counts: a COSE_Sign1
/// whose body is exactly keys {1..4} with domain `"BCF-COSIG/1"`, binding
/// `checkpoint_hash`; a well-formed witness bound by the header's alg and
/// kid; a verifying witness signature; and a witness in `witness_set` that
/// is not the publisher.
#[verifier::opaque]
pub open spec fn counting_witness_spec(
    cosig: Seq<u8>,
    checkpoint_hash: Seq<u8>,
    witness_set: Seq<Seq<u8>>,
    publisher_pub: Seq<u8>,
) -> Option<Seq<u8>> {
    match cose1::parse_spec(cosig) {
        Err(_) => None,
        Ok(s) => match decode_canonical_spec(s.payload) {
            Err(_) => None,
            Ok(body) => match body_spec(body, cosig_kinds(), Error::CkptWitness) {
                Err(_) => None,
                Ok(f) => if f[0] is None || f[0]->0->Text_0 != COSIG_DOMAIN@ || f[3] is None {
                    None
                } else if f[1] is None || f[1]->0->Bytes_0 != checkpoint_hash {
                    None
                } else if f[2] is None {
                    None
                } else {
                    match party_entry_spec(f[2]->0) {
                        Err(_) => None,
                        Ok(w) => match alg_kid_spec(s.protected, Error::CkptWitness) {
                            Err(_) => None,
                            Ok((alg, kid)) => if alg != cose_id_spec(w.alg) || kid != sha256_spec(
                                w.pubkey,
                            ) {
                                None
                            } else if !signature_ok_spec(s, w.alg, w.pubkey) {
                                None
                            } else if w.pubkey == publisher_pub {
                                None
                            } else if !witness_set.contains(w.pubkey) {
                                None
                            } else {
                                Some(w.pubkey)
                            },
                        },
                    }
                },
            },
        },
    }
}

/// The distinct witness keys that the co-signatures contribute.
pub open spec fn counted_witnesses(
    cosigs: Seq<Seq<u8>>,
    checkpoint_hash: Seq<u8>,
    witness_set: Seq<Seq<u8>>,
    publisher_pub: Seq<u8>,
) -> Set<Seq<u8>> {
    Set::new(
        |w: Seq<u8>|
            exists|i: int|
                0 <= i < cosigs.len() && #[trigger] counting_witness_spec(
                    cosigs[i],
                    checkpoint_hash,
                    witness_set,
                    publisher_pub,
                ) == Some(w),
    )
}

/// Whether `set` holds the byte string `x`.
fn contains_bytes(set: &[Vec<u8>], x: &[u8]) -> (r: bool)
    ensures
        r == byte_vecs(set@).contains(x@),
{
    let mut i: usize = 0;
    while i < set.len()
        invariant
            0 <= i <= set@.len(),
            forall|j: int| 0 <= j < i ==> byte_vecs(set@)[j] != x@,
        decreases set@.len() - i,
    {
        if bytes_eq(set[i].as_slice(), x) {
            assert(byte_vecs(set@)[i as int] == x@);
            return true;
        }
        i += 1;
    }
    false
}

/// If `cosig_bytes` is a co-signature that counts toward the threshold for
/// the checkpoint identified by `checkpoint_hash`, the witness public key;
/// otherwise `None`.
fn counting_witness(
    cosig_bytes: &[u8],
    checkpoint_hash: &[u8; 32],
    witness_set: &[Vec<u8>],
    publisher_pub: &[u8],
) -> (r: Option<Vec<u8>>)
    ensures
        opt_bytes(r) == counting_witness_spec(
            cosig_bytes@,
            checkpoint_hash@,
            byte_vecs(witness_set@),
            publisher_pub@,
        ),
{
    reveal(counting_witness_spec);
    let sign1 = match cose1::parse(cosig_bytes) {
        Ok(s) => s,
        Err(_) => return None,
    };
    let body = match decode_canonical(sign1.payload.as_slice()) {
        Ok(b) => b,
        Err(_) => return None,
    };
    let kinds = [FieldKind::Text, FieldKind::Bytes32, FieldKind::Any, FieldKind::Int];
    assert(kinds@ =~= cosig_kinds());
    proof {
        lemma_body_spec(body@, cosig_kinds(), Error::CkptWitness);
    }
    let fields = match cose1::read_body(&body, kinds.as_slice(), Error::CkptWitness) {
        Ok(f) => f,
        Err(_) => return None,
    };
    let domain = match fields[0] {
        Some(v) => cose1::text_of(v),
        None => return None,
    };
    if !text_eq(domain.as_str(), COSIG_DOMAIN) || fields[3].is_none() {
        return None;
    }
    // Content binding: a co-signature for another checkpoint cannot be
    // transplanted.
    let bound_hash = match fields[1] {
        Some(v) => cose1::bytes32_of(v),
        None => return None,
    };
    if !eq32(&bound_hash, checkpoint_hash) {
        return None;
    }
    let witness_value = match fields[2] {
        Some(v) => v,
        None => return None,
    };
    let witness = match party_entry(witness_value) {
        Ok(w) => w,
        Err(_) => return None,
    };
    let (alg_id, kid) = match cose1::protected_alg_kid(&sign1, Error::CkptWitness) {
        Ok(x) => x,
        Err(_) => return None,
    };
    let key_id = sha256(witness.pubkey.as_slice());
    if alg_id != witness.alg.cose_id() || !bytes_eq(kid.as_slice(), key_id.as_slice()) {
        return None;
    }
    if !cose1::signature_ok(&sign1, witness.alg, witness.pubkey.as_slice()) {
        return None;
    }
    // Independence: the publisher cannot witness itself, even if listed in
    // the set; and only keys the caller trusts count.
    if bytes_eq(witness.pubkey.as_slice(), publisher_pub) {
        return None;
    }
    if !contains_bytes(witness_set, witness.pubkey.as_slice()) {
        return None;
    }
    Some(witness.pubkey)
}

/// The byte view of an optional byte vector.
pub open spec fn opt_bytes(o: Option<Vec<u8>>) -> Option<Seq<u8>> {
    match o {
        Some(v) => Some(v@),
        None => None,
    }
}

/// What [`verify_checkpoint`] returns (W1–W4): the COSE_Sign1 envelope and a
/// body of exactly keys {1..6} with a `tree_size` that fits `u64`; a
/// well-formed publisher bound by the header (W1); the domain (W2); the
/// publisher's signature (W3); and at least `threshold` distinct counting
/// witnesses for this checkpoint's hash (W4).
pub open spec fn verify_checkpoint_spec(
    checkpoint_bytes: Seq<u8>,
    expected_domain: Seq<char>,
    cosignatures: Seq<Seq<u8>>,
    witness_set: Seq<Seq<u8>>,
    threshold: nat,
) -> Result<CheckpointModel, Error> {
    match cose1::parse_spec(checkpoint_bytes) {
        Err(e) => Err(e),
        Ok(s) => match decode_canonical_spec(s.payload) {
            Err(e) => Err(e),
            Ok(body) => match body_spec(body, ckpt_kinds(), Error::CkptStructure) {
                Err(e) => Err(e),
                Ok(f) => if f[0] is None || f[1] is None || f[2] is None || f[3] is None || f[4] is None
                    || f[5] is None {
                    Err(Error::CkptStructure)
                } else if f[2]->0->Int_0 < 0 || f[2]->0->Int_0 > u64::MAX {
                    Err(Error::CkptStructure)
                } else {
                    match party_entry_spec(f[5]->0) {
                        Err(_) => Err(Error::CkptStructure),
                        Ok(p) => match alg_kid_spec(s.protected, Error::CkptStructure) {
                            Err(e) => Err(e),
                            Ok((alg, kid)) => if alg != cose_id_spec(p.alg) || kid != sha256_spec(
                                p.pubkey,
                            ) {
                                Err(Error::CkptStructure)
                            } else if f[0]->0->Text_0 != expected_domain {
                                Err(Error::CkptDomain)
                            } else if !signature_ok_spec(s, p.alg, p.pubkey) {
                                Err(Error::CkptSig)
                            } else if counted_witnesses(
                                cosignatures,
                                sha256_spec(checkpoint_bytes),
                                witness_set,
                                p.pubkey,
                            ).len() < threshold {
                                Err(Error::CkptWitness)
                            } else {
                                Ok(
                                    CheckpointModel {
                                        chain_id: f[1]->0->Bytes_0,
                                        tree_size: f[2]->0->Int_0 as nat,
                                        log_root: f[3]->0->Bytes_0,
                                        published_at: f[4]->0->Int_0,
                                        publisher: p,
                                    },
                                )
                            },
                        },
                    }
                },
            },
        },
    }
}

/// The distinct counting witnesses among `cosignatures`.
fn distinct_witnesses(
    cosignatures: &[Vec<u8>],
    checkpoint_hash: &[u8; 32],
    witness_set: &[Vec<u8>],
    publisher_pub: &[u8],
) -> (r: Vec<Vec<u8>>)
    ensures
        byte_vecs(r@).no_duplicates(),
        byte_vecs(r@).to_set() == counted_witnesses(
            byte_vecs(cosignatures@),
            checkpoint_hash@,
            byte_vecs(witness_set@),
            publisher_pub@,
        ),
{
    let ghost cs = byte_vecs(cosignatures@);
    let ghost ws = byte_vecs(witness_set@);
    let mut distinct: Vec<Vec<u8>> = Vec::new();
    let mut i: usize = 0;
    assert(byte_vecs(distinct@).to_set() =~= counted_witnesses(cs.take(0), checkpoint_hash@, ws, publisher_pub@));
    while i < cosignatures.len()
        invariant
            0 <= i <= cosignatures@.len(),
            cs == byte_vecs(cosignatures@),
            ws == byte_vecs(witness_set@),
            byte_vecs(distinct@).no_duplicates(),
            byte_vecs(distinct@).to_set() == counted_witnesses(
                cs.take(i as int),
                checkpoint_hash@,
                ws,
                publisher_pub@,
            ),
        decreases cosignatures@.len() - i,
    {
        let ghost before = byte_vecs(distinct@);
        let found = counting_witness(cosignatures[i].as_slice(), checkpoint_hash, witness_set, publisher_pub);
        let ghost prev = counted_witnesses(cs.take(i as int), checkpoint_hash@, ws, publisher_pub@);
        let ghost next = counted_witnesses(cs.take(i + 1), checkpoint_hash@, ws, publisher_pub@);
        proof {
            assert(cs[i as int] == cosignatures@[i as int]@);
            assert forall|w: Seq<u8>| next.contains(w) <==> (prev.contains(w) || opt_bytes(found) == Some(w)) by {
                if next.contains(w) {
                    let j = choose|j: int| 0 <= j < cs.take(i + 1).len() && #[trigger] counting_witness_spec(
                        cs.take(i + 1)[j], checkpoint_hash@, ws, publisher_pub@) == Some(w);
                    if j < i {
                        assert(cs.take(i as int)[j] == cs.take(i + 1)[j]);
                    }
                }
                if prev.contains(w) {
                    let j = choose|j: int| 0 <= j < cs.take(i as int).len() && #[trigger] counting_witness_spec(
                        cs.take(i as int)[j], checkpoint_hash@, ws, publisher_pub@) == Some(w);
                    assert(cs.take(i as int)[j] == cs.take(i + 1)[j]);
                }
                if opt_bytes(found) == Some(w) {
                    assert(cs.take(i + 1)[i as int] == cs[i as int]);
                }
            }
        }
        match found {
            Some(w) => {
                if !contains_bytes(distinct.as_slice(), w.as_slice()) {
                    distinct.push(w);
                    proof {
                        let after = byte_vecs(distinct@);
                        assert(after =~= before.push(w@));
                        assert forall|a: int, b: int| 0 <= a < after.len() && 0 <= b < after.len() && a != b
                            implies after[a] != after[b] by {
                            if a < before.len() && b < before.len() {
                                assert(after[a] == before[a]);
                                assert(after[b] == before[b]);
                            } else if a < before.len() {
                                assert(after[a] == before[a]);
                                assert(before.contains(after[a]));
                            } else if b < before.len() {
                                assert(after[b] == before[b]);
                                assert(before.contains(after[b]));
                            }
                        }
                        assert(after.to_set() =~= next) by {
                            assert forall|x: Seq<u8>| after.to_set().contains(x) <==> next.contains(x) by {
                                if before.to_set().contains(x) {
                                    let q = choose|q: int| 0 <= q < before.len() && before[q] == x;
                                    assert(after[q] == x);
                                }
                                if after.contains(x) {
                                    let q = choose|q: int| 0 <= q < after.len() && after[q] == x;
                                    if q < before.len() {
                                        assert(before[q] == x);
                                        assert(before.to_set().contains(x));
                                    }
                                }
                                if x == w@ {
                                    assert(after[before.len() as int] == x);
                                }
                            }
                        }
                    }
                } else {
                    proof {
                        assert(before.to_set() =~= next) by {
                            assert forall|x: Seq<u8>| before.to_set().contains(x) <==> next.contains(x) by {
                                if x == w@ {
                                    assert(before.contains(x));
                                }
                            }
                        }
                    }
                }
            },
            None => {
                proof {
                    assert(before.to_set() =~= next);
                }
            },
        }
        i += 1;
    }
    assert(cs.take(i as int) =~= cs);
    distinct
}

/// Verify a witnessed checkpoint (W1–W4). On success the checkpoint's
/// `tree_size` and `log_root` are safe to bind inclusion and consistency
/// proofs to; before that they are attacker-controlled.
///
/// `witness_set` and `threshold` are caller policy. A co-signature counts
/// toward the threshold only if it is a valid `"BCF-COSIG/1"` COSE_Sign1
/// that binds this checkpoint by hash, signed by a key in `witness_set` that
/// is not the publisher; counting is by distinct witness key, so several
/// co-signatures from one witness cannot manufacture a quorum. A threshold
/// of `0` opts out of witnessing.
pub fn verify_checkpoint(
    checkpoint_bytes: &[u8],
    expected_domain: &str,
    cosignatures: &[Vec<u8>],
    witness_set: &[Vec<u8>],
    threshold: usize,
) -> (r: Result<Checkpoint, Error>)
    ensures
        r matches Ok(c) ==> verify_checkpoint_spec(
            checkpoint_bytes@,
            expected_domain@,
            byte_vecs(cosignatures@),
            byte_vecs(witness_set@),
            threshold as nat,
        ) == Ok::<CheckpointModel, Error>(c@),
        r matches Err(e) ==> verify_checkpoint_spec(
            checkpoint_bytes@,
            expected_domain@,
            byte_vecs(cosignatures@),
            byte_vecs(witness_set@),
            threshold as nat,
        ) == Err::<CheckpointModel, Error>(e),
{
    // W1 — COSE_Sign1 envelope, deterministic CBOR, tag 18, unprotected empty.
    let sign1 = cose1::parse(checkpoint_bytes)?;

    // W1 — body is a deterministic-CBOR map with exactly keys {1..6}.
    let body = decode_canonical(sign1.payload.as_slice())?;
    let kinds = [
        FieldKind::Text,
        FieldKind::Bytes32,
        FieldKind::Int,
        FieldKind::Bytes32,
        FieldKind::Int,
        FieldKind::Any,
    ];
    assert(kinds@ =~= ckpt_kinds());
    proof {
        lemma_body_spec(body@, ckpt_kinds(), Error::CkptStructure);
    }
    let fields = cose1::read_body(&body, kinds.as_slice(), Error::CkptStructure)?;
    let domain = match fields[0] {
        Some(v) => cose1::text_of(v),
        None => return Err(Error::CkptStructure),
    };
    let chain_id = match fields[1] {
        Some(v) => cose1::bytes32_of(v),
        None => return Err(Error::CkptStructure),
    };
    // tree_size is the authoritative log size: a negative or oversized value
    // is rejected here, before it can drive the consistency recursion.
    let size_value = match fields[2] {
        Some(v) => cose1::int_of(v),
        None => return Err(Error::CkptStructure),
    };
    let log_root = match fields[3] {
        Some(v) => cose1::bytes32_of(v),
        None => return Err(Error::CkptStructure),
    };
    let published_at = match fields[4] {
        Some(v) => cose1::int_of(v),
        None => return Err(Error::CkptStructure),
    };
    let publisher_value = match fields[5] {
        Some(v) => v,
        None => return Err(Error::CkptStructure),
    };
    if size_value < 0 || size_value > u64::MAX as i128 {
        return Err(Error::CkptStructure);
    }
    let tree_size = size_value as u64;

    // W1 (cont) — publisher well-formed; header binds. These come ahead of
    // the W2 domain check: a checkpoint that is both wrong-domain and
    // malformed-publisher fails as E_CKPT_STRUCTURE.
    let publisher = match party_entry(publisher_value) {
        Ok(p) => p,
        Err(_) => return Err(Error::CkptStructure),
    };
    let (alg_id, kid) = cose1::protected_alg_kid(&sign1, Error::CkptStructure)?;
    let key_id = sha256(publisher.pubkey.as_slice());
    if alg_id != publisher.alg.cose_id() || !bytes_eq(kid.as_slice(), key_id.as_slice()) {
        return Err(Error::CkptStructure);
    }

    // W2 — domain separator.
    if !text_eq(domain.as_str(), expected_domain) {
        return Err(Error::CkptDomain);
    }

    // W3 — publisher signature verifies (ES256K low-s enforced).
    if !cose1::signature_ok(&sign1, publisher.alg, publisher.pubkey.as_slice()) {
        return Err(Error::CkptSig);
    }

    // W4 — at least `threshold` distinct in-set non-publisher witnesses, each
    // binding this checkpoint by content. Co-signatures that do not count
    // are skipped: a hostile bundle weakens to "not enough witnesses".
    let checkpoint_hash = sha256(checkpoint_bytes);
    let distinct = distinct_witnesses(cosignatures, &checkpoint_hash, witness_set, publisher.pubkey.as_slice());
    proof {
        byte_vecs(distinct@).unique_seq_to_set();
    }
    if distinct.len() < threshold {
        return Err(Error::CkptWitness);
    }
    Ok(Checkpoint { chain_id, tree_size, log_root, published_at, publisher })
}

/// What [`detect_log_equivocation`] returns (L1–L3): both checkpoints verify;
/// different `(publisher, chain)` are unrelated logs; the same size with
/// different roots is a fork; different sizes are a fork unless the proof
/// shows the smaller log a prefix of the larger.
pub open spec fn detect_log_equivocation_spec(
    checkpoint_a: Seq<u8>,
    cosignatures_a: Seq<Seq<u8>>,
    checkpoint_b: Seq<u8>,
    cosignatures_b: Seq<Seq<u8>>,
    consistency_proof: Seq<Seq<u8>>,
    expected_domain: Seq<char>,
    witness_set: Seq<Seq<u8>>,
    threshold: nat,
) -> Result<ForkVerdict, Error> {
    match verify_checkpoint_spec(checkpoint_a, expected_domain, cosignatures_a, witness_set, threshold) {
        Err(e) => Err(e),
        Ok(a) => match verify_checkpoint_spec(
            checkpoint_b,
            expected_domain,
            cosignatures_b,
            witness_set,
            threshold,
        ) {
            Err(e) => Err(e),
            Ok(b) => if a.publisher.pubkey != b.publisher.pubkey || a.chain_id != b.chain_id {
                Ok(ForkVerdict::NoFork)
            } else if a.tree_size == b.tree_size {
                if a.log_root == b.log_root {
                    Ok(ForkVerdict::NoFork)
                } else {
                    Ok(ForkVerdict::Fork)
                }
            } else {
                let (lo, hi) = if a.tree_size < b.tree_size {
                    (a, b)
                } else {
                    (b, a)
                };
                if consistency_ok(lo.tree_size, lo.log_root, hi.tree_size, hi.log_root, consistency_proof) {
                    Ok(ForkVerdict::NoFork)
                } else {
                    Ok(ForkVerdict::Fork)
                }
            },
        },
    }
}

/// Detect cross-presentation equivocation between two checkpoints (L1–L3).
/// Both checkpoints must be witnessed first; a checkpoint that fails
/// verification is an error, not a `NoFork`. A `Fork` is accountable
/// evidence, never a prevention.
pub fn detect_log_equivocation(
    checkpoint_a: &[u8],
    cosignatures_a: &[Vec<u8>],
    checkpoint_b: &[u8],
    cosignatures_b: &[Vec<u8>],
    consistency_proof: &[[u8; 32]],
    expected_domain: &str,
    witness_set: &[Vec<u8>],
    threshold: usize,
) -> (r: Result<ForkVerdict, Error>)
    ensures
        r == detect_log_equivocation_spec(
            checkpoint_a@,
            byte_vecs(cosignatures_a@),
            checkpoint_b@,
            byte_vecs(cosignatures_b@),
            digests(consistency_proof@),
            expected_domain@,
            byte_vecs(witness_set@),
            threshold as nat,
        ),
{
    let a = verify_checkpoint(checkpoint_a, expected_domain, cosignatures_a, witness_set, threshold)?;
    let b = verify_checkpoint(checkpoint_b, expected_domain, cosignatures_b, witness_set, threshold)?;

    // L1 — one publisher's two stories about one chain, or not comparable.
    if !bytes_eq(a.publisher.pubkey.as_slice(), b.publisher.pubkey.as_slice()) || !eq32(
        &a.chain_id,
        &b.chain_id,
    ) {
        return Ok(ForkVerdict::NoFork);
    }

    // L2 — same epoch count: divergent roots are an outright fork.
    if a.tree_size == b.tree_size {
        return Ok(
            if eq32(&a.log_root, &b.log_root) {
                ForkVerdict::NoFork
            } else {
                ForkVerdict::Fork
            },
        );
    }

    // L3 — different sizes: honest growth iff the smaller is a prefix of the
    // larger.
    let consistent = if a.tree_size < b.tree_size {
        verify_log_consistency(a.tree_size, &a.log_root, b.tree_size, &b.log_root, consistency_proof)
    } else {
        verify_log_consistency(b.tree_size, &b.log_root, a.tree_size, &a.log_root, consistency_proof)
    };
    match consistent {
        Ok(()) => Ok(ForkVerdict::NoFork),
        Err(_) => Ok(ForkVerdict::Fork),
    }
}

/// The consistency boundaries: a shrunk log is never consistent; equal
/// sizes are consistent exactly with equal roots and an empty proof; the
/// empty log is a prefix of every log, with an empty proof.
pub proof fn law_consistency_boundaries(
    old_size: nat,
    old_root: Seq<u8>,
    new_size: nat,
    new_root: Seq<u8>,
    proof: Seq<Seq<u8>>,
)
    ensures
        old_size > new_size ==> !consistency_ok(old_size, old_root, new_size, new_root, proof),
        consistency_ok(new_size, new_root, new_size, new_root, Seq::empty()),
        old_size == new_size ==> (consistency_ok(old_size, old_root, new_size, new_root, proof) <==> (
        proof.len() == 0 && old_root == new_root)),
        0 < new_size ==> consistency_ok(0, old_root, new_size, new_root, Seq::empty()),
{
}

/// Only independent, trusted witnesses count: every counted key is in the
/// caller's witness set and is not the publisher's.
pub proof fn law_witnesses_independent(
    cosigs: Seq<Seq<u8>>,
    checkpoint_hash: Seq<u8>,
    witness_set: Seq<Seq<u8>>,
    publisher_pub: Seq<u8>,
    w: Seq<u8>,
)
    requires
        counted_witnesses(cosigs, checkpoint_hash, witness_set, publisher_pub).contains(w),
    ensures
        w != publisher_pub,
        witness_set.contains(w),
{
    reveal(counting_witness_spec);
    let i = choose|i: int|
        0 <= i < cosigs.len() && #[trigger] counting_witness_spec(
            cosigs[i],
            checkpoint_hash,
            witness_set,
            publisher_pub,
        ) == Some(w);
}

proof fn lemma_counted_same_elements(
    cosigs_1: Seq<Seq<u8>>,
    cosigs_2: Seq<Seq<u8>>,
    h: Seq<u8>,
    witness_set: Seq<Seq<u8>>,
    pp: Seq<u8>,
)
    requires
        same_elements(cosigs_1, cosigs_2),
    ensures
        counted_witnesses(cosigs_1, h, witness_set, pp) == counted_witnesses(cosigs_2, h, witness_set, pp),
{
    let s1 = counted_witnesses(cosigs_1, h, witness_set, pp);
    let s2 = counted_witnesses(cosigs_2, h, witness_set, pp);
    assert forall|w: Seq<u8>| s1.contains(w) <==> s2.contains(w) by {
        if s1.contains(w) {
            let i = choose|i: int|
                0 <= i < cosigs_1.len() && #[trigger] counting_witness_spec(cosigs_1[i], h, witness_set, pp)
                    == Some(w);
            assert(cosigs_1.contains(cosigs_1[i]));
            let j = choose|j: int| 0 <= j < cosigs_2.len() && cosigs_2[j] == cosigs_1[i];
            assert(counting_witness_spec(cosigs_2[j], h, witness_set, pp) == Some(w));
        }
        if s2.contains(w) {
            let i = choose|i: int|
                0 <= i < cosigs_2.len() && #[trigger] counting_witness_spec(cosigs_2[i], h, witness_set, pp)
                    == Some(w);
            assert(cosigs_2.contains(cosigs_2[i]));
            let j = choose|j: int| 0 <= j < cosigs_1.len() && cosigs_1[j] == cosigs_2[i];
            assert(counting_witness_spec(cosigs_1[j], h, witness_set, pp) == Some(w));
        }
    }
    assert(s1 =~= s2);
}

/// The witness count is by distinct co-signature content: repeating a
/// co-signature, or presenting the bundle in another order, does not change
/// whether a checkpoint verifies.
pub proof fn law_cosignature_bundle_set_only(
    checkpoint_bytes: Seq<u8>,
    expected_domain: Seq<char>,
    cosigs_1: Seq<Seq<u8>>,
    cosigs_2: Seq<Seq<u8>>,
    witness_set: Seq<Seq<u8>>,
    threshold: nat,
)
    requires
        same_elements(cosigs_1, cosigs_2),
    ensures
        verify_checkpoint_spec(checkpoint_bytes, expected_domain, cosigs_1, witness_set, threshold)
            == verify_checkpoint_spec(checkpoint_bytes, expected_domain, cosigs_2, witness_set, threshold),
{
    let h = sha256_spec(checkpoint_bytes);
    assert forall|pp: Seq<u8>| #[trigger] counted_witnesses(cosigs_1, h, witness_set, pp) == counted_witnesses(
        cosigs_2,
        h,
        witness_set,
        pp,
    ) by {
        lemma_counted_same_elements(cosigs_1, cosigs_2, h, witness_set, pp);
    }
}

/// A threshold of zero opts out of witnessing: the verdict on a checkpoint
/// then does not depend on the co-signatures or the witness set.
pub proof fn law_threshold_zero(
    checkpoint_bytes: Seq<u8>,
    expected_domain: Seq<char>,
    cosigs_1: Seq<Seq<u8>>,
    witness_set_1: Seq<Seq<u8>>,
    cosigs_2: Seq<Seq<u8>>,
    witness_set_2: Seq<Seq<u8>>,
)
    ensures
        verify_checkpoint_spec(checkpoint_bytes, expected_domain, cosigs_1, witness_set_1, 0)
            == verify_checkpoint_spec(checkpoint_bytes, expected_domain, cosigs_2, witness_set_2, 0),
{
}

proof fn lemma_counted_monotone(
    cosigs: Seq<Seq<u8>>,
    more_cosigs: Seq<Seq<u8>>,
    h: Seq<u8>,
    witness_set: Seq<Seq<u8>>,
    more_witnesses: Seq<Seq<u8>>,
    pp: Seq<u8>,
)
    requires
        forall|c: Seq<u8>| #[trigger] cosigs.contains(c) ==> more_cosigs.contains(c),
        forall|w: Seq<u8>| #[trigger] witness_set.contains(w) ==> more_witnesses.contains(w),
    ensures
        counted_witnesses(cosigs, h, witness_set, pp).len() <= counted_witnesses(
            more_cosigs,
            h,
            more_witnesses,
            pp,
        ).len(),
{
    let s1 = counted_witnesses(cosigs, h, witness_set, pp);
    let s2 = counted_witnesses(more_cosigs, h, more_witnesses, pp);
    assert(s1.subset_of(s2)) by {
        assert forall|w: Seq<u8>| s1.contains(w) implies s2.contains(w) by {
            let i = choose|i: int|
                0 <= i < cosigs.len() && #[trigger] counting_witness_spec(cosigs[i], h, witness_set, pp) == Some(w);
            assert(cosigs.contains(cosigs[i]));
            let j = choose|j: int| 0 <= j < more_cosigs.len() && more_cosigs[j] == cosigs[i];
            reveal(counting_witness_spec);
            assert(counting_witness_spec(more_cosigs[j], h, more_witnesses, pp) == Some(w));
        }
    }
    assert(s2.subset_of(more_witnesses.to_set())) by {
        assert forall|w: Seq<u8>| s2.contains(w) implies more_witnesses.to_set().contains(w) by {
            law_witnesses_independent(more_cosigs, h, more_witnesses, pp, w);
        }
    }
    vstd::set_lib::lemma_len_subset(s2, more_witnesses.to_set());
    vstd::set_lib::lemma_len_subset(s1, s2);
}

/// Witnessing only ever helps: a checkpoint that verifies still verifies,
/// with the same result, when more co-signatures are presented (in any
/// order), more witnesses are trusted, or the threshold is lowered.
pub proof fn law_checkpoint_witness_monotone(
    checkpoint_bytes: Seq<u8>,
    expected_domain: Seq<char>,
    cosigs: Seq<Seq<u8>>,
    witness_set: Seq<Seq<u8>>,
    threshold: nat,
    more_cosigs: Seq<Seq<u8>>,
    more_witnesses: Seq<Seq<u8>>,
    lower_threshold: nat,
)
    requires
        forall|c: Seq<u8>| #[trigger] cosigs.contains(c) ==> more_cosigs.contains(c),
        forall|w: Seq<u8>| #[trigger] witness_set.contains(w) ==> more_witnesses.contains(w),
        lower_threshold <= threshold,
    ensures
        verify_checkpoint_spec(checkpoint_bytes, expected_domain, cosigs, witness_set, threshold) is Ok
            ==> verify_checkpoint_spec(
            checkpoint_bytes,
            expected_domain,
            more_cosigs,
            more_witnesses,
            lower_threshold,
        ) == verify_checkpoint_spec(checkpoint_bytes, expected_domain, cosigs, witness_set, threshold),
{
    let h = sha256_spec(checkpoint_bytes);
    assert forall|pp: Seq<u8>|
        counted_witnesses(cosigs, h, witness_set, pp).len() <= #[trigger] counted_witnesses(
            more_cosigs,
            h,
            more_witnesses,
            pp,
        ).len() by {
        lemma_counted_monotone(cosigs, more_cosigs, h, witness_set, more_witnesses, pp);
    }
}

/// A checkpoint never equivocates with itself.
pub proof fn law_log_no_self_fork(
    checkpoint: Seq<u8>,
    cosigs: Seq<Seq<u8>>,
    consistency_proof: Seq<Seq<u8>>,
    expected_domain: Seq<char>,
    witness_set: Seq<Seq<u8>>,
    threshold: nat,
)
    ensures
        detect_log_equivocation_spec(
            checkpoint,
            cosigs,
            checkpoint,
            cosigs,
            consistency_proof,
            expected_domain,
            witness_set,
            threshold,
        ) != Ok::<ForkVerdict, Error>(ForkVerdict::Fork),
{
}

/// Equivocation detection does not depend on the order in which the two
/// checkpoints are presented, once both verify.
pub proof fn law_log_fork_symmetric(
    checkpoint_a: Seq<u8>,
    cosignatures_a: Seq<Seq<u8>>,
    checkpoint_b: Seq<u8>,
    cosignatures_b: Seq<Seq<u8>>,
    consistency_proof: Seq<Seq<u8>>,
    expected_domain: Seq<char>,
    witness_set: Seq<Seq<u8>>,
    threshold: nat,
)
    requires
        verify_checkpoint_spec(checkpoint_a, expected_domain, cosignatures_a, witness_set, threshold) is Ok,
        verify_checkpoint_spec(checkpoint_b, expected_domain, cosignatures_b, witness_set, threshold) is Ok,
    ensures
        detect_log_equivocation_spec(
            checkpoint_a,
            cosignatures_a,
            checkpoint_b,
            cosignatures_b,
            consistency_proof,
            expected_domain,
            witness_set,
            threshold,
        ) == detect_log_equivocation_spec(
            checkpoint_b,
            cosignatures_b,
            checkpoint_a,
            cosignatures_a,
            consistency_proof,
            expected_domain,
            witness_set,
            threshold,
        ),
{
}

/// Honest growth is not equivocation: two verified checkpoints whose logs
/// are a prefix and its extension, presented with the RFC 6962 consistency
/// proof between them, are never reported as a fork.
pub proof fn law_honest_growth_no_fork(
    checkpoint_a: Seq<u8>,
    cosignatures_a: Seq<Seq<u8>>,
    checkpoint_b: Seq<u8>,
    cosignatures_b: Seq<Seq<u8>>,
    expected_domain: Seq<char>,
    witness_set: Seq<Seq<u8>>,
    threshold: nat,
    leaves: Seq<Seq<u8>>,
    m: nat,
)
    requires
        0 < m < leaves.len(),
        verify_checkpoint_spec(checkpoint_a, expected_domain, cosignatures_a, witness_set, threshold) matches Ok(
            a,
        ) && a.tree_size == m && a.log_root == merkle_root_spec(leaves.subrange(0, m as int)),
        verify_checkpoint_spec(checkpoint_b, expected_domain, cosignatures_b, witness_set, threshold) matches Ok(
            b,
        ) && b.tree_size == leaves.len() && b.log_root == merkle_root_spec(leaves),
    ensures
        detect_log_equivocation_spec(
            checkpoint_a,
            cosignatures_a,
            checkpoint_b,
            cosignatures_b,
            consistency_proof(m, leaves),
            expected_domain,
            witness_set,
            threshold,
        ) == Ok::<ForkVerdict, Error>(ForkVerdict::NoFork),
{
    law_consistency_complete(leaves, m);
}

/// At most one new root is consistent with a given old log: for fixed
/// sizes, old root and proof, consistency verification accepts at most one
/// new root once the old log is non-empty. (The empty log is a prefix of
/// every log, so with `old_size == 0` every new root passes.)
pub proof fn law_consistency_unique_root(
    old_size: nat,
    old_root: Seq<u8>,
    new_size: nat,
    new_root_1: Seq<u8>,
    new_root_2: Seq<u8>,
    proof: Seq<Seq<u8>>,
)
    requires
        0 < old_size,
        consistency_ok(old_size, old_root, new_size, new_root_1, proof),
        consistency_ok(old_size, old_root, new_size, new_root_2, proof),
    ensures
        new_root_1 == new_root_2,
{
}

/// The RFC 6962 consistency proof between a log and a non-empty proper
/// prefix of it vouches for that log's root and no other: with the prefix's
/// true root and the proof, the only new root that passes is the true root
/// of the whole log.
pub proof fn law_consistency_binds_new_root(leaves: Seq<Seq<u8>>, m: nat, new_root: Seq<u8>)
    requires
        0 < m < leaves.len(),
        consistency_ok(
            m,
            merkle_root_spec(leaves.subrange(0, m as int)),
            leaves.len(),
            new_root,
            consistency_proof(m, leaves),
        ),
    ensures
        new_root == merkle_root_spec(leaves),
{
    law_consistency_complete(leaves, m);
    law_consistency_unique_root(
        m,
        merkle_root_spec(leaves.subrange(0, m as int)),
        leaves.len(),
        new_root,
        merkle_root_spec(leaves),
        consistency_proof(m, leaves),
    );
}

/// Two verified checkpoints tell one story when they have the same size and
/// root, or when either log is shown, by `proof`, to be a prefix of the
/// other.
pub open spec fn logs_agree(a: CheckpointModel, b: CheckpointModel, proof: Seq<Seq<u8>>) -> bool {
    ||| a.tree_size == b.tree_size && a.log_root == b.log_root
    ||| consistency_ok(a.tree_size, a.log_root, b.tree_size, b.log_root, proof)
    ||| consistency_ok(b.tree_size, b.log_root, a.tree_size, a.log_root, proof)
}

/// What a log-equivocation verdict means (L1–L3). Once both checkpoints
/// verify, the verdict is a fork exactly when they are by one publisher, for
/// one chain, and their logs do not agree; checkpoints of different
/// publishers or of different chains are never a fork. A checkpoint that
/// fails verification gives its own error.
pub proof fn law_log_fork_meaning(
    checkpoint_a: Seq<u8>,
    cosignatures_a: Seq<Seq<u8>>,
    checkpoint_b: Seq<u8>,
    cosignatures_b: Seq<Seq<u8>>,
    consistency_proof: Seq<Seq<u8>>,
    expected_domain: Seq<char>,
    witness_set: Seq<Seq<u8>>,
    threshold: nat,
)
    ensures
        ({
            let va = verify_checkpoint_spec(checkpoint_a, expected_domain, cosignatures_a, witness_set, threshold);
            let vb = verify_checkpoint_spec(checkpoint_b, expected_domain, cosignatures_b, witness_set, threshold);
            let r = detect_log_equivocation_spec(
                checkpoint_a,
                cosignatures_a,
                checkpoint_b,
                cosignatures_b,
                consistency_proof,
                expected_domain,
                witness_set,
                threshold,
            );
            &&& va matches Err(e) ==> r == Err::<ForkVerdict, Error>(e)
            &&& va is Ok ==> (vb matches Err(e) ==> r == Err::<ForkVerdict, Error>(e))
            &&& va matches Ok(a) ==> (vb matches Ok(b) ==> r == Ok::<ForkVerdict, Error>(
                if a.publisher.pubkey == b.publisher.pubkey && a.chain_id == b.chain_id && !logs_agree(
                    a,
                    b,
                    consistency_proof,
                ) {
                    ForkVerdict::Fork
                } else {
                    ForkVerdict::NoFork
                },
            ))
        }),
{
}

} // verus!
