//! Gap detection: a holder-side utility. Over the set of artifacts a party
//! holds, a gap is any predecessor referenced by a held artifact that the
//! party does not hold and has not accepted as an external reference. Gaps
//! drive retransmission requests; an unresolved gap is not by itself
//! attributable.
use crate::bytes::byte_vecs;
use crate::chain::{
    artifacts_from, arts_view, collect_artifacts, has_gap, hashes_of, is_input, is_member, lemma_artifact_view,
    ArtifactModel,
};
use crate::error::Error;
use crate::merkle::{contains_digest, digests, sorted_dedup, strictly_sorted};
use vstd::prelude::*;

verus! {

/// `x` is a predecessor of a held artifact that is neither held nor an
/// accepted external reference.
pub open spec fn is_gap(arts: Seq<ArtifactModel>, external_refs: Seq<Seq<u8>>, x: Seq<u8>) -> bool {
    &&& exists|k: int, q: int|
        0 <= k < arts.len() && 0 <= q < (#[trigger] arts[k]).prev.len() && #[trigger] arts[k].prev[q] == x
    &&& !hashes_of(arts).contains(x)
    &&& !external_refs.contains(x)
}

/// `x` is among the predecessors of the first `n` artifacts.
spec fn named_before(arts: Seq<ArtifactModel>, n: int, x: Seq<u8>) -> bool {
    exists|j: int, t: int| 0 <= j < n && 0 <= t < (#[trigger] arts[j]).prev.len() && #[trigger] arts[j].prev[t] == x
}

/// `x` is among the first `n` predecessors of `a`.
spec fn referenced_by(a: ArtifactModel, n: int, x: Seq<u8>) -> bool {
    exists|t: int| 0 <= t < n && #[trigger] a.prev[t] == x
}

/// Return the sorted, deduplicated set of predecessor hashes referenced by
/// the held artifacts but neither held nor listed in `external_refs`. Every
/// envelope must be a valid BCF artifact (the first failure is returned).
pub fn find_gaps(envelopes: &[Vec<u8>], expected_domain: &str, external_refs: &[[u8; 32]]) -> (r: Result<
    Vec<[u8; 32]>,
    Error,
>)
    ensures
        r matches Err(e) ==> artifacts_from(byte_vecs(envelopes@), expected_domain@, 0, Seq::empty())
            == Err::<Seq<ArtifactModel>, Error>(e),
        r matches Ok(g) ==> artifacts_from(byte_vecs(envelopes@), expected_domain@, 0, Seq::empty()) matches Ok(
            arts,
        ) && strictly_sorted(digests(g@)) && forall|x: Seq<u8>|
            #[trigger] digests(g@).contains(x) <==> is_gap(arts, digests(external_refs@), x),
{
    let arts = collect_artifacts(envelopes, expected_domain)?;
    let ghost av = arts_view(arts@);
    let ghost ext = digests(external_refs@);
    let mut referenced: Vec<[u8; 32]> = Vec::new();
    let mut k: usize = 0;
    while k < arts.len()
        invariant
            0 <= k <= arts@.len(),
            av == arts_view(arts@),
            ext == digests(external_refs@),
            forall|x: Seq<u8>|
                #[trigger] digests(referenced@).contains(x) <==> named_before(av, k as int, x)
                    && !hashes_of(av).contains(x) && !ext.contains(x),
        decreases arts@.len() - k,
    {
        assert(av[k as int] == arts@[k as int]@);
        proof {
            lemma_artifact_view(arts@[k as int]);
        }
        let prev = &arts[k].prev;
        let mut q: usize = 0;
        while q < prev.len()
            invariant
                0 <= q <= prev@.len(),
                k < arts@.len(),
                av == arts_view(arts@),
                ext == digests(external_refs@),
                av[k as int].prev == digests(prev@),
                forall|x: Seq<u8>|
                    #[trigger] digests(referenced@).contains(x) <==> (named_before(av, k as int, x)
                        || referenced_by(av[k as int], q as int, x)) && !hashes_of(av).contains(x)
                        && !ext.contains(x),
            decreases prev@.len() - q,
        {
            assert(av[k as int].prev[q as int] == prev@[q as int]@);
            if !is_input(&arts, &prev[q]) && !contains_digest(external_refs, &prev[q]) {
                let ghost before = digests(referenced@);
                referenced.push(prev[q]);
                proof {
                    let after = digests(referenced@);
                    assert(after =~= before.push(prev@[q as int]@));
                    assert forall|x: Seq<u8>| #[trigger] after.contains(x) <==> before.contains(x) || x == prev@[q as int]@ by {
                        if before.contains(x) {
                            let i = choose|i: int| 0 <= i < before.len() && before[i] == x;
                            assert(after[i] == x);
                        }
                        if x == prev@[q as int]@ {
                            assert(after[before.len() as int] == x);
                        }
                        if after.contains(x) {
                            let i = choose|i: int| 0 <= i < after.len() && after[i] == x;
                            if i < before.len() {
                                assert(before[i] == x);
                            }
                        }
                    }
                }
            }
            q += 1;
        }
        proof {
            assert forall|x: Seq<u8>|
                #[trigger] named_before(av, k + 1, x) <==> (named_before(av, k as int, x) || referenced_by(
                    av[k as int],
                    av[k as int].prev.len() as int,
                    x,
                )) by {
                if named_before(av, k + 1, x) {
                    let (j, t) = choose|j: int, t: int|
                        0 <= j < k + 1 && 0 <= t < (#[trigger] av[j]).prev.len() && #[trigger] av[j].prev[t] == x;
                    if j == k {
                        assert(av[k as int].prev[t] == x);
                    }
                }
                if referenced_by(av[k as int], av[k as int].prev.len() as int, x) {
                    let t = choose|t: int| 0 <= t < av[k as int].prev.len() && #[trigger] av[k as int].prev[t] == x;
                    assert(av[k as int].prev[t] == x);
                }
            }
        }
        k += 1;
    }
    let gaps = sorted_dedup(referenced.as_slice());
    proof {
        assert forall|x: Seq<u8>| #[trigger] digests(gaps@).contains(x) <==> is_gap(av, ext, x) by {
            if named_before(av, av.len() as int, x) {
                let (j, t) = choose|j: int, t: int|
                    0 <= j < av.len() && 0 <= t < (#[trigger] av[j]).prev.len() && #[trigger] av[j].prev[t] == x;
            }
        }
    }
    Ok(gaps)
}

/// Passing the reported gaps back as accepted external references leaves
/// no gaps.
pub proof fn law_gaps_closed(arts: Seq<ArtifactModel>, external_refs: Seq<Seq<u8>>, gaps: Seq<Seq<u8>>)
    requires
        forall|x: Seq<u8>| #[trigger] gaps.contains(x) <==> is_gap(arts, external_refs, x),
    ensures
        forall|x: Seq<u8>| !is_gap(arts, external_refs + gaps, x),
{
    assert forall|x: Seq<u8>| !is_gap(arts, external_refs + gaps, x) by {
        if is_gap(arts, external_refs + gaps, x) {
            assert(!(external_refs + gaps).contains(x));
            assert(is_gap(arts, external_refs, x)) by {
                if external_refs.contains(x) {
                    let i = choose|i: int| 0 <= i < external_refs.len() && external_refs[i] == x;
                    assert((external_refs + gaps)[i] == x);
                }
            }
            assert(gaps.contains(x));
            let i = choose|i: int| 0 <= i < gaps.len() && gaps[i] == x;
            assert((external_refs + gaps)[external_refs.len() + i] == x);
        }
    }
}

/// Accepting more external references only removes gaps: with any superset
/// `more_refs` of `external_refs`, the gaps are the old gaps minus the
/// references in `more_refs`.
pub proof fn law_gaps_shrink(arts: Seq<ArtifactModel>, external_refs: Seq<Seq<u8>>, more_refs: Seq<Seq<u8>>)
    requires
        forall|x: Seq<u8>| #[trigger] external_refs.contains(x) ==> more_refs.contains(x),
    ensures
        forall|x: Seq<u8>|
            is_gap(arts, more_refs, x) <==> is_gap(arts, external_refs, x) && !more_refs.contains(x),
{
}

/// A chain with a member gap (C3) has a gap a holder can see: when gap
/// detection over the same artifacts finds nothing, chain verification
/// finds no gap either.
pub proof fn law_no_gaps_no_chain_gap(arts: Seq<ArtifactModel>, chain_id: Seq<u8>, external_refs: Seq<Seq<u8>>)
    requires
        forall|x: Seq<u8>| !is_gap(arts, external_refs, x),
    ensures
        !has_gap(arts, chain_id, external_refs),
{
    if has_gap(arts, chain_id, external_refs) {
        let (k, q) = choose|k: int, q: int|
            0 <= k < arts.len() && 0 <= q < arts[k].prev.len() && is_member(arts, chain_id, (#[trigger] arts[k]).hash)
                && !hashes_of(arts).contains(#[trigger] arts[k].prev[q]) && !external_refs.contains(arts[k].prev[q]);
        assert(is_gap(arts, external_refs, arts[k].prev[q]));
    }
}

/// Gaps depend only on which artifacts are held: holding the same
/// artifacts, in any order and with any repetition, gives the same gaps.
pub proof fn law_gaps_set_only(a: Seq<ArtifactModel>, b: Seq<ArtifactModel>, external_refs: Seq<Seq<u8>>)
    requires
        forall|x: ArtifactModel| #![trigger a.contains(x)] #![trigger b.contains(x)] a.contains(x) <==> b.contains(x),
    ensures
        forall|x: Seq<u8>| is_gap(a, external_refs, x) <==> is_gap(b, external_refs, x),
{
    assert forall|h: Seq<u8>| #[trigger] hashes_of(a).contains(h) implies hashes_of(b).contains(h) by {
        let k = choose|k: int| 0 <= k < hashes_of(a).len() && hashes_of(a)[k] == h;
        assert(a.contains(a[k]));
        let j = choose|j: int| 0 <= j < b.len() && b[j] == a[k];
        assert(hashes_of(b)[j] == h);
    }
    assert forall|h: Seq<u8>| #[trigger] hashes_of(b).contains(h) implies hashes_of(a).contains(h) by {
        let k = choose|k: int| 0 <= k < hashes_of(b).len() && hashes_of(b)[k] == h;
        assert(b.contains(b[k]));
        let j = choose|j: int| 0 <= j < a.len() && a[j] == b[k];
        assert(hashes_of(a)[j] == h);
    }
    assert forall|x: Seq<u8>| is_gap(a, external_refs, x) <==> is_gap(b, external_refs, x) by {
        if is_gap(a, external_refs, x) {
            let (k, t) = choose|k: int, t: int|
                0 <= k < a.len() && 0 <= t < (#[trigger] a[k]).prev.len() && #[trigger] a[k].prev[t] == x;
            assert(a.contains(a[k]));
            let j = choose|j: int| 0 <= j < b.len() && b[j] == a[k];
            assert(b[j].prev[t] == x);
        }
        if is_gap(b, external_refs, x) {
            let (k, t) = choose|k: int, t: int|
                0 <= k < b.len() && 0 <= t < (#[trigger] b[k]).prev.len() && #[trigger] b[k].prev[t] == x;
            assert(b.contains(b[k]));
            let j = choose|j: int| 0 <= j < a.len() && a[j] == b[k];
            assert(a[j].prev[t] == x);
        }
    }
}

} // verus!
