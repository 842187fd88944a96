//! Chain verification, checks C1–C4.
//!
//! A chain is a per-author hash-linked DAG: each claim's `prev` carries the
//! `claim_hash`es of its predecessors. Verification is detect-mode: it proves
//! misbehaviour, it does not prevent it. The two subtle decisions encoded
//! here are the member/import partition (C2) and the strict equivocation rule
//! (C4): any signer on two distinct claims that share a predecessor.
use crate::bytes::{byte_vecs, bytes_eq, eq32, lemma_rearranged_symmetric, rearranged, to_vec};
use crate::error::Error;
use crate::merkle::{contains_digest, digests};
use crate::verify::{artifact_error, law_artifact_errors, verify_bcf, verify_bcf_spec, Verified, VerifiedModel};
use vstd::prelude::*;

verus! {

/// The chain-relevant facts of one verified artifact.
pub(crate) struct Artifact {
    pub(crate) hash: [u8; 32],
    pub(crate) prev: Vec<[u8; 32]>,
    pub(crate) pubkeys: Vec<Vec<u8>>,
}

/// The chain-relevant facts of one verified artifact: its claim hash, its
/// predecessors, and its signers' keys.
pub ghost struct ArtifactModel {
    pub hash: Seq<u8>,
    pub prev: Seq<Seq<u8>>,
    pub pubkeys: Seq<Seq<u8>>,
}

impl View for Artifact {
    type V = ArtifactModel;

    closed spec fn view(&self) -> ArtifactModel {
        ArtifactModel { hash: self.hash@, prev: digests(self.prev@), pubkeys: byte_vecs(self.pubkeys@) }
    }
}

pub(crate) open spec fn arts_view(s: Seq<Artifact>) -> Seq<ArtifactModel> {
    Seq::new(s.len(), |i: int| s[i]@)
}

pub(crate) proof fn lemma_artifact_view(a: Artifact)
    ensures
        a@.hash == a.hash@,
        a@.prev == digests(a.prev@),
        a@.pubkeys == byte_vecs(a.pubkeys@),
{
}

/// The chain facts of a verified artifact.
pub open spec fn artifact_of(v: VerifiedModel) -> ArtifactModel {
    ArtifactModel {
        hash: v.claim_hash,
        prev: v.claim.prev,
        pubkeys: Seq::new(v.claim.parties.len(), |i: int| v.claim.parties[i].pubkey),
    }
}

/// C1 from index `i`: verify each envelope in turn, stopping at the first
/// failure.
#[verifier::opaque]
pub open spec fn artifacts_from(
    envelopes: Seq<Seq<u8>>,
    expected_domain: Seq<char>,
    i: int,
    acc: Seq<ArtifactModel>,
) -> Result<Seq<ArtifactModel>, Error>
    decreases envelopes.len() - i,
{
    if i < 0 || i >= envelopes.len() {
        Ok(acc)
    } else {
        match verify_bcf_spec(envelopes[i], expected_domain, None) {
            Err(e) => Err(e),
            Ok(v) => artifacts_from(envelopes, expected_domain, i + 1, acc.push(artifact_of(v))),
        }
    }
}

/// Some artifact lists a predecessor twice.
pub open spec fn has_duplicate_prev(arts: Seq<ArtifactModel>) -> bool {
    exists|k: int| 0 <= k < arts.len() && !(#[trigger] arts[k]).prev.no_duplicates()
}

/// Exactly one artifact has hash `chain_id`, and it is a genesis.
pub open spec fn root_ok(arts: Seq<ArtifactModel>, chain_id: Seq<u8>) -> bool {
    exists|g: int|
        0 <= g < arts.len() && (#[trigger] arts[g]).hash == chain_id && arts[g].prev.len() == 0
            && forall|k: int| 0 <= k < arts.len() && (#[trigger] arts[k]).hash == chain_id ==> k == g
}

/// One round of member growth: add the hash of every artifact with a
/// predecessor already in `m`.
pub open spec fn grow(arts: Seq<ArtifactModel>, m: Set<Seq<u8>>) -> Set<Seq<u8>> {
    m.union(
        Set::new(
            |h: Seq<u8>|
                exists|k: int|
                    0 <= k < arts.len() && (#[trigger] arts[k]).hash == h && exists|q: int|
                        0 <= q < arts[k].prev.len() && m.contains(#[trigger] arts[k].prev[q]),
        ),
    )
}

/// The hashes that reach `chain_id` within `n` rounds.
pub open spec fn reach(arts: Seq<ArtifactModel>, chain_id: Seq<u8>, n: nat) -> Set<Seq<u8>>
    decreases n,
{
    if n == 0 {
        set![chain_id]
    } else {
        grow(arts, reach(arts, chain_id, (n - 1) as nat))
    }
}

/// The members: the least set holding `chain_id` and every artifact with a
/// predecessor in it (the hashes that reach the genesis via `prev` edges).
pub open spec fn is_member(arts: Seq<ArtifactModel>, chain_id: Seq<u8>, h: Seq<u8>) -> bool {
    exists|n: nat| #[trigger] reach(arts, chain_id, n).contains(h)
}

/// Artifact `k` is referenced by a member's `prev`.
pub open spec fn is_import(arts: Seq<ArtifactModel>, chain_id: Seq<u8>, k: int) -> bool {
    exists|j: int|
        0 <= j < arts.len() && is_member(arts, chain_id, (#[trigger] arts[j]).hash) && arts[j].prev.contains(
            arts[k].hash,
        )
}

/// Some artifact is neither a member nor an import.
pub open spec fn has_unreachable(arts: Seq<ArtifactModel>, chain_id: Seq<u8>) -> bool {
    exists|k: int|
        0 <= k < arts.len() && !is_member(arts, chain_id, (#[trigger] arts[k]).hash) && !is_import(
            arts,
            chain_id,
            k,
        )
}

/// Some member lists a predecessor that is neither an input artifact nor an
/// accepted external reference.
pub open spec fn has_gap(arts: Seq<ArtifactModel>, chain_id: Seq<u8>, external_refs: Seq<Seq<u8>>) -> bool {
    exists|k: int, q: int|
        0 <= k < arts.len() && 0 <= q < arts[k].prev.len() && is_member(
            arts,
            chain_id,
            (#[trigger] arts[k]).hash,
        ) && !hashes_of(arts).contains(#[trigger] arts[k].prev[q]) && !external_refs.contains(
            arts[k].prev[q],
        )
}

/// The hashes of the artifacts.
pub open spec fn hashes_of(arts: Seq<ArtifactModel>) -> Seq<Seq<u8>> {
    Seq::new(arts.len(), |i: int| arts[i].hash)
}

/// `k` is the first artifact with its hash (distinct claims are compared,
/// not copies of one claim).
pub open spec fn first_of_hash(arts: Seq<ArtifactModel>, k: int) -> bool {
    forall|j: int| 0 <= j < k ==> (#[trigger] arts[j]).hash != arts[k].hash
}

/// The two artifacts share a predecessor entry.
pub open spec fn shares_prev(a: ArtifactModel, b: ArtifactModel) -> bool {
    exists|q: int| 0 <= q < a.prev.len() && b.prev.contains(#[trigger] a.prev[q])
}

/// The two artifacts share a signer key.
pub open spec fn shares_signer(a: ArtifactModel, b: ArtifactModel) -> bool {
    exists|q: int| 0 <= q < a.pubkeys.len() && b.pubkeys.contains(#[trigger] a.pubkeys[q])
}

/// C4: a signer appears on two distinct claims that share a predecessor.
pub open spec fn has_equivocation(arts: Seq<ArtifactModel>) -> bool {
    exists|i: int, j: int|
        0 <= i < j < arts.len() && first_of_hash(arts, i) && first_of_hash(arts, j) && shares_prev(
            #[trigger] arts[i],
            #[trigger] arts[j],
        ) && shares_signer(arts[i], arts[j])
}

/// What [`verify_chain`] returns: C1 every envelope verifies; no claim lists
/// a predecessor twice; C2 exactly one genesis with hash `chain_id`, and
/// every artifact a member or an import; C3 no member gap; C4 no
/// equivocation. The first failure in that order.
pub open spec fn verify_chain_spec(
    envelopes: Seq<Seq<u8>>,
    chain_id: Seq<u8>,
    expected_domain: Seq<char>,
    external_refs: Seq<Seq<u8>>,
) -> Result<(), Error> {
    match artifacts_from(envelopes, expected_domain, 0, Seq::empty()) {
        Err(e) => Err(e),
        Ok(arts) => if has_duplicate_prev(arts) {
            Err(Error::ChainStructure)
        } else if !root_ok(arts, chain_id) {
            Err(Error::ChainRoot)
        } else if has_unreachable(arts, chain_id) {
            Err(Error::ChainUnreachable)
        } else if has_gap(arts, chain_id, external_refs) {
            Err(Error::ChainGap)
        } else if has_equivocation(arts) {
            Err(Error::Equivocation)
        } else {
            Ok(())
        },
    }
}

/// The chain facts of a verified artifact, moved out of it.
fn artifact_from(v: Verified) -> (a: Artifact)
    ensures
        a@ == artifact_of(v@),
{
    let ghost vm = v@;
    let Verified { claim, claim_hash } = v;
    let mut pubkeys: Vec<Vec<u8>> = Vec::new();
    let mut i: usize = 0;
    while i < claim.parties.len()
        invariant
            0 <= i <= claim.parties@.len(),
            vm.claim == claim@,
            byte_vecs(pubkeys@) =~= Seq::new(i as nat, |j: int| vm.claim.parties[j].pubkey),
        decreases claim.parties@.len() - i,
    {
        assert(vm.claim.parties[i as int].pubkey == claim.parties@[i as int].pubkey@);
        let ghost before = byte_vecs(pubkeys@);
        pubkeys.push(to_vec(claim.parties[i].pubkey.as_slice()));
        assert(byte_vecs(pubkeys@) =~= before.push(claim.parties@[i as int].pubkey@));
        i += 1;
    }
    Artifact { hash: claim_hash, prev: claim.prev, pubkeys }
}

/// C1: verify every envelope, members and imports alike.
pub(crate) fn collect_artifacts(envelopes: &[Vec<u8>], expected_domain: &str) -> (r: Result<Vec<Artifact>, Error>)
    ensures
        r matches Ok(v) ==> artifacts_from(byte_vecs(envelopes@), expected_domain@, 0, Seq::empty())
            == Ok::<Seq<ArtifactModel>, Error>(arts_view(v@)),
        r matches Err(e) ==> artifacts_from(byte_vecs(envelopes@), expected_domain@, 0, Seq::empty())
            == Err::<Seq<ArtifactModel>, Error>(e),
{
    let ghost envs = byte_vecs(envelopes@);
    let mut arts: Vec<Artifact> = Vec::new();
    let mut i: usize = 0;
    assert(arts_view(arts@) =~= Seq::<ArtifactModel>::empty());
    while i < envelopes.len()
        invariant
            0 <= i <= envelopes@.len(),
            envs == byte_vecs(envelopes@),
            artifacts_from(envs, expected_domain@, 0, Seq::empty()) == artifacts_from(
                envs,
                expected_domain@,
                i as int,
                arts_view(arts@),
            ),
        decreases envelopes@.len() - i,
    {
        assert(envs[i as int] == envelopes@[i as int]@);
        proof {
            reveal(artifacts_from);
        }
        let verified = verify_bcf(envelopes[i].as_slice(), expected_domain, None)?;
        let art = artifact_from(verified);
        let ghost before = arts_view(arts@);
        arts.push(art);
        assert(arts_view(arts@) =~= before.push(art@));
        i += 1;
    }
    proof {
        reveal(artifacts_from);
    }
    Ok(arts)
}

/// Whether the list names some digest twice.
fn lists_twice(prev: &[[u8; 32]]) -> (r: bool)
    ensures
        r == !digests(prev@).no_duplicates(),
{
    let ghost d = digests(prev@);
    let mut i: usize = 0;
    while i < prev.len()
        invariant
            0 <= i <= prev@.len(),
            d == digests(prev@),
            forall|a: int, b: int| 0 <= a < i && 0 <= b < prev@.len() && a != b ==> d[a] != d[b],
        decreases prev@.len() - i,
    {
        let mut j: usize = 0;
        while j < prev.len()
            invariant
                0 <= i < prev@.len(),
                0 <= j <= prev@.len(),
                d == digests(prev@),
                forall|a: int, b: int| 0 <= a < i && 0 <= b < prev@.len() && a != b ==> d[a] != d[b],
                forall|b: int| 0 <= b < j && b != i ==> d[i as int] != d[b],
            decreases prev@.len() - j,
        {
            if j != i && eq32(&prev[i], &prev[j]) {
                assert(d[i as int] == prev@[i as int]@ && d[j as int] == prev@[j as int]@);
                assert(d[i as int] == d[j as int]);
                return true;
            }
            j += 1;
        }
        i += 1;
    }
    false
}

/// Some artifact lists a predecessor twice.
fn any_duplicate_prev(arts: &Vec<Artifact>) -> (r: bool)
    ensures
        r == has_duplicate_prev(arts_view(arts@)),
{
    let ghost av = arts_view(arts@);
    let mut k: usize = 0;
    while k < arts.len()
        invariant
            0 <= k <= arts@.len(),
            av == arts_view(arts@),
            forall|j: int| 0 <= j < k ==> (#[trigger] av[j]).prev.no_duplicates(),
        decreases arts@.len() - k,
    {
        assert(av[k as int] == arts@[k as int]@);
        if lists_twice(arts[k].prev.as_slice()) {
            return true;
        }
        k += 1;
    }
    false
}

/// C2 root: exactly one artifact has hash `chain_id`, and it is a genesis.
fn root_check(arts: &Vec<Artifact>, chain_id: &[u8; 32]) -> (r: bool)
    ensures
        r == root_ok(arts_view(arts@), chain_id@),
{
    let ghost av = arts_view(arts@);
    let mut g: usize = 0;
    while g < arts.len() && !eq32(&arts[g].hash, chain_id)
        invariant
            0 <= g <= arts@.len(),
            av == arts_view(arts@),
            forall|j: int| 0 <= j < g ==> (#[trigger] av[j]).hash != chain_id@,
        decreases arts@.len() - g,
    {
        assert(av[g as int] == arts@[g as int]@);
        g += 1;
    }
    if g == arts.len() {
        return false;  // no artifact matches chain_id
    }
    assert(av[g as int] == arts@[g as int]@);
    let mut k: usize = g + 1;
    while k < arts.len()
        invariant
            g < k <= arts@.len(),
            av == arts_view(arts@),
            av[g as int].hash == chain_id@,
            forall|j: int| 0 <= j < g ==> (#[trigger] av[j]).hash != chain_id@,
            forall|j: int| g < j < k ==> (#[trigger] av[j]).hash != chain_id@,
        decreases arts@.len() - k,
    {
        assert(av[k as int] == arts@[k as int]@);
        if eq32(&arts[k].hash, chain_id) {
            return false;  // chain_id matched more than once
        }
        k += 1;
    }
    arts[g].prev.len() == 0  // matched, but must be a genesis
}

// ---------------------------------------------------------------------------
// C2 members: the least fixpoint of "reaches the genesis via prev edges"
// ---------------------------------------------------------------------------

/// The member set a flag vector stands for: `chain_id` and the hash of each
/// flagged artifact.
spec fn mem_set(arts: Seq<ArtifactModel>, chain_id: Seq<u8>, flags: Seq<bool>) -> Set<Seq<u8>> {
    Set::new(
        |h: Seq<u8>|
            h == chain_id || exists|k: int| 0 <= k < flags.len() && flags[k] && (#[trigger] arts[k]).hash == h,
    )
}

/// Some predecessor of `a` is in `m`.
spec fn touches(a: ArtifactModel, m: Set<Seq<u8>>) -> bool {
    exists|q: int| 0 <= q < a.prev.len() && m.contains(#[trigger] a.prev[q])
}

/// Every artifact with a predecessor in `m` has its hash in `m`.
spec fn closed(arts: Seq<ArtifactModel>, m: Set<Seq<u8>>) -> bool {
    forall|j: int| 0 <= j < arts.len() ==> m.contains((#[trigger] arts[j]).hash) || !touches(arts[j], m)
}

/// Every hash in the set is a member.
spec fn sound(arts: Seq<ArtifactModel>, chain_id: Seq<u8>, m: Set<Seq<u8>>) -> bool {
    forall|h: Seq<u8>| #[trigger] m.contains(h) ==> is_member(arts, chain_id, h)
}

spec fn count_false(s: Seq<bool>) -> nat
    decreases s.len(),
{
    if s.len() == 0 {
        0
    } else {
        count_false(s.drop_last()) + if s.last() {
            0nat
        } else {
            1nat
        }
    }
}

proof fn lemma_count_false_update(s: Seq<bool>, k: int)
    requires
        0 <= k < s.len(),
        !s[k],
    ensures
        count_false(s.update(k, true)) + 1 == count_false(s),
    decreases s.len(),
{
    let t = s.update(k, true);
    if k == s.len() - 1 {
        assert(t.drop_last() =~= s.drop_last());
    } else {
        assert(t.drop_last() =~= s.drop_last().update(k, true));
        lemma_count_false_update(s.drop_last(), k);
    }
}

proof fn lemma_reach_step(arts: Seq<ArtifactModel>, chain_id: Seq<u8>, n: nat, k: int, q: int)
    requires
        0 <= k < arts.len(),
        0 <= q < arts[k].prev.len(),
        reach(arts, chain_id, n).contains(arts[k].prev[q]),
    ensures
        reach(arts, chain_id, n + 1).contains(arts[k].hash),
{
    let m = reach(arts, chain_id, n);
    assert(reach(arts, chain_id, n + 1) == grow(arts, m));
}

/// A closed set holding `chain_id` holds every member.
proof fn lemma_closed_complete(arts: Seq<ArtifactModel>, chain_id: Seq<u8>, m: Set<Seq<u8>>, n: nat)
    requires
        m.contains(chain_id),
        closed(arts, m),
    ensures
        forall|h: Seq<u8>| #[trigger] reach(arts, chain_id, n).contains(h) ==> m.contains(h),
    decreases n,
{
    if n > 0 {
        lemma_closed_complete(arts, chain_id, m, (n - 1) as nat);
        let prev_set = reach(arts, chain_id, (n - 1) as nat);
        assert forall|h: Seq<u8>| #[trigger] reach(arts, chain_id, n).contains(h) implies m.contains(h) by {
            if !prev_set.contains(h) {
                let k = choose|k: int|
                    0 <= k < arts.len() && (#[trigger] arts[k]).hash == h && exists|q: int|
                        0 <= q < arts[k].prev.len() && prev_set.contains(#[trigger] arts[k].prev[q]);
                let q = choose|q: int| 0 <= q < arts[k].prev.len() && prev_set.contains(#[trigger] arts[k].prev[q]);
                assert(m.contains(arts[k].prev[q]));
                assert(touches(arts[k], m));
            }
        }
    } else {
        assert forall|h: Seq<u8>| #[trigger] reach(arts, chain_id, n).contains(h) implies m.contains(h) by {
            assert(h == chain_id);
        }
    }
}

/// Whether `h` is in the member set the flags stand for.
fn in_members(arts: &Vec<Artifact>, chain_id: &[u8; 32], flags: &Vec<bool>, h: &[u8; 32]) -> (r: bool)
    requires
        flags@.len() == arts@.len(),
    ensures
        r == mem_set(arts_view(arts@), chain_id@, flags@).contains(h@),
{
    let ghost av = arts_view(arts@);
    if eq32(h, chain_id) {
        return true;
    }
    let mut k: usize = 0;
    while k < arts.len()
        invariant
            0 <= k <= arts@.len(),
            flags@.len() == arts@.len(),
            av == arts_view(arts@),
            h@ != chain_id@,
            forall|j: int| 0 <= j < k ==> !(flags@[j] && (#[trigger] av[j]).hash == h@),
        decreases arts@.len() - k,
    {
        assert(av[k as int] == arts@[k as int]@);
        if flags[k] && eq32(&arts[k].hash, h) {
            return true;
        }
        k += 1;
    }
    false
}

/// Whether some predecessor of artifact `k` is in the member set.
fn touches_members(arts: &Vec<Artifact>, chain_id: &[u8; 32], flags: &Vec<bool>, k: usize) -> (r: bool)
    requires
        flags@.len() == arts@.len(),
        k < arts@.len(),
    ensures
        r == touches(arts_view(arts@)[k as int], mem_set(arts_view(arts@), chain_id@, flags@)),
{
    let ghost av = arts_view(arts@);
    let ghost m = mem_set(av, chain_id@, flags@);
    assert(av[k as int] == arts@[k as int]@);
    let prev = &arts[k].prev;
    let mut q: usize = 0;
    while q < prev.len()
        invariant
            0 <= q <= prev@.len(),
            flags@.len() == arts@.len(),
            k < arts@.len(),
            av == arts_view(arts@),
            m == mem_set(av, chain_id@, flags@),
            av[k as int].prev == digests(prev@),
            forall|j: int| 0 <= j < q ==> !m.contains(#[trigger] av[k as int].prev[j]),
        decreases prev@.len() - q,
    {
        assert(av[k as int].prev[q as int] == prev@[q as int]@);
        if in_members(arts, chain_id, flags, &prev[q]) {
            return true;
        }
        q += 1;
    }
    false
}

/// The members of the chain: the genesis, plus every artifact with a
/// predecessor already known to be a member, to the fixpoint. Each pass adds
/// at least one member or halts.
fn compute_members(arts: &Vec<Artifact>, chain_id: &[u8; 32]) -> (flags: Vec<bool>)
    ensures
        flags@.len() == arts@.len(),
        forall|h: Seq<u8>|
            #[trigger] mem_set(arts_view(arts@), chain_id@, flags@).contains(h) <==> is_member(
                arts_view(arts@),
                chain_id@,
                h,
            ),
{
    let ghost av = arts_view(arts@);
    let ghost cid = chain_id@;
    let mut flags: Vec<bool> = Vec::new();
    let mut i: usize = 0;
    while i < arts.len()
        invariant
            0 <= i <= arts@.len(),
            flags@.len() == i,
            forall|j: int| 0 <= j < i ==> !flags@[j],
        decreases arts@.len() - i,
    {
        flags.push(false);
        i += 1;
    }
    proof {
        assert forall|h: Seq<u8>| #[trigger] mem_set(av, cid, flags@).contains(h) implies is_member(av, cid, h) by {
            assert(h == cid);
            assert(reach(av, cid, 0).contains(h));
        }
    }
    let mut changed = true;
    while changed
        invariant
            flags@.len() == arts@.len(),
            av == arts_view(arts@),
            cid == chain_id@,
            sound(av, cid, mem_set(av, cid, flags@)),
            !changed ==> closed(av, mem_set(av, cid, flags@)),
        decreases count_false(flags@) + if changed {
            1nat
        } else {
            0nat
        },
    {
        let ghost start = flags@;
        let mut added = false;
        let mut k: usize = 0;
        while k < arts.len()
            invariant
                0 <= k <= arts@.len(),
                flags@.len() == arts@.len(),
                start.len() == arts@.len(),
                av == arts_view(arts@),
                cid == chain_id@,
                sound(av, cid, mem_set(av, cid, flags@)),
                !added ==> flags@ == start,
                added ==> count_false(flags@) < count_false(start),
                !added ==> forall|j: int|
                    0 <= j < k ==> mem_set(av, cid, flags@).contains((#[trigger] av[j]).hash) || !touches(
                        av[j],
                        mem_set(av, cid, flags@),
                    ),
            decreases arts@.len() - k,
        {
            assert(av[k as int] == arts@[k as int]@);
            if !in_members(arts, chain_id, &flags, &arts[k].hash) {
                if touches_members(arts, chain_id, &flags, k) {
                    let ghost m0 = mem_set(av, cid, flags@);
                    let ghost f0 = flags@;
                    proof {
                        let q = choose|q: int| 0 <= q < av[k as int].prev.len() && m0.contains(
                            #[trigger] av[k as int].prev[q],
                        );
                        assert(is_member(av, cid, av[k as int].prev[q]));
                        let n = choose|n: nat| #[trigger] reach(av, cid, n).contains(av[k as int].prev[q]);
                        lemma_reach_step(av, cid, n, k as int, q);
                        lemma_count_false_update(f0, k as int);
                    }
                    flags.set(k, true);
                    proof {
                        let m1 = mem_set(av, cid, flags@);
                        assert forall|h: Seq<u8>| #[trigger] m1.contains(h) implies is_member(av, cid, h) by {
                            if h != av[k as int].hash && h != cid {
                                let j = choose|j: int| 0 <= j < flags@.len() && flags@[j] && (#[trigger] av[j]).hash == h;
                                assert(f0[j]);
                                assert(m0.contains(h));
                            }
                            if h == cid {
                                assert(m0.contains(h));
                            }
                            if h == av[k as int].hash {
                                let q = choose|q: int| 0 <= q < av[k as int].prev.len() && m0.contains(
                                    #[trigger] av[k as int].prev[q],
                                );
                                let n = choose|n: nat| #[trigger] reach(av, cid, n).contains(av[k as int].prev[q]);
                                lemma_reach_step(av, cid, n, k as int, q);
                            }
                        }
                    }
                    added = true;
                }
            }
            k += 1;
        }
        changed = added;
    }
    proof {
        let m = mem_set(av, cid, flags@);
        assert(m.contains(cid));
        assert forall|h: Seq<u8>| #[trigger] m.contains(h) <==> is_member(av, cid, h) by {
            if is_member(av, cid, h) {
                let n = choose|n: nat| #[trigger] reach(av, cid, n).contains(h);
                lemma_closed_complete(av, cid, m, n);
            }
        }
    }
    flags
}

// ---------------------------------------------------------------------------
// C2 partition, C3 gaps, C4 equivocation
// ---------------------------------------------------------------------------

/// Some artifact is neither a member nor referenced by a member's `prev`.
fn any_unreachable(arts: &Vec<Artifact>, chain_id: &[u8; 32], flags: &Vec<bool>) -> (r: bool)
    requires
        flags@.len() == arts@.len(),
        forall|h: Seq<u8>|
            #[trigger] mem_set(arts_view(arts@), chain_id@, flags@).contains(h) <==> is_member(
                arts_view(arts@),
                chain_id@,
                h,
            ),
    ensures
        r == has_unreachable(arts_view(arts@), chain_id@),
{
    let ghost av = arts_view(arts@);
    let ghost m = mem_set(av, chain_id@, flags@);
    let mut k: usize = 0;
    while k < arts.len()
        invariant
            0 <= k <= arts@.len(),
            flags@.len() == arts@.len(),
            av == arts_view(arts@),
            m == mem_set(av, chain_id@, flags@),
            forall|h: Seq<u8>| #[trigger] m.contains(h) <==> is_member(av, chain_id@, h),
            forall|j: int|
                0 <= j < k ==> is_member(av, chain_id@, (#[trigger] av[j]).hash) || is_import(
                    av,
                    chain_id@,
                    j,
                ),
        decreases arts@.len() - k,
    {
        assert(av[k as int] == arts@[k as int]@);
        let is_mem = in_members(arts, chain_id, flags, &arts[k].hash);
        if !is_mem {
            // An artifact referenced by a member's prev but not itself a
            // member is an import.
            let mut j: usize = 0;
            let mut imported = false;
            while j < arts.len() && !imported
                invariant
                    0 <= j <= arts@.len(),
                    k < arts@.len(),
                    flags@.len() == arts@.len(),
                    av == arts_view(arts@),
                    m == mem_set(av, chain_id@, flags@),
                    forall|h: Seq<u8>| #[trigger] m.contains(h) <==> is_member(av, chain_id@, h),
                    imported ==> is_import(av, chain_id@, k as int),
                    !imported ==> forall|i: int|
                        0 <= i < j ==> !(is_member(av, chain_id@, (#[trigger] av[i]).hash)
                            && av[i].prev.contains(av[k as int].hash)),
                decreases arts@.len() - j,
            {
                assert(av[j as int] == arts@[j as int]@);
                if in_members(arts, chain_id, flags, &arts[j].hash) && contains_digest(
                    arts[j].prev.as_slice(),
                    &arts[k].hash,
                ) {
                    imported = true;
                }
                j += 1;
            }
            if !imported {
                assert(!is_member(av, chain_id@, av[k as int].hash));
                assert(!is_import(av, chain_id@, k as int));
                return true;
            }
        }
        k += 1;
    }
    false
}

/// Whether `h` is the hash of some artifact.
pub(crate) fn is_input(arts: &Vec<Artifact>, h: &[u8; 32]) -> (r: bool)
    ensures
        r == hashes_of(arts_view(arts@)).contains(h@),
{
    let ghost hs = hashes_of(arts_view(arts@));
    let mut k: usize = 0;
    while k < arts.len()
        invariant
            0 <= k <= arts@.len(),
            hs == hashes_of(arts_view(arts@)),
            forall|j: int| 0 <= j < k ==> hs[j] != h@,
        decreases arts@.len() - k,
    {
        assert(hs[k as int] == arts@[k as int].hash@);
        if eq32(&arts[k].hash, h) {
            return true;
        }
        k += 1;
    }
    false
}

/// C3: some member lists a predecessor that is neither an input artifact
/// nor an accepted external reference. Imports' `prev` entries are foreign
/// context and exempt.
fn any_gap(arts: &Vec<Artifact>, chain_id: &[u8; 32], flags: &Vec<bool>, external_refs: &[[u8; 32]]) -> (r:
    bool)
    requires
        flags@.len() == arts@.len(),
        forall|h: Seq<u8>|
            #[trigger] mem_set(arts_view(arts@), chain_id@, flags@).contains(h) <==> is_member(
                arts_view(arts@),
                chain_id@,
                h,
            ),
    ensures
        r == has_gap(arts_view(arts@), chain_id@, digests(external_refs@)),
{
    let ghost av = arts_view(arts@);
    let ghost m = mem_set(av, chain_id@, flags@);
    let ghost ext = digests(external_refs@);
    let mut k: usize = 0;
    while k < arts.len()
        invariant
            0 <= k <= arts@.len(),
            flags@.len() == arts@.len(),
            av == arts_view(arts@),
            m == mem_set(av, chain_id@, flags@),
            ext == digests(external_refs@),
            forall|h: Seq<u8>| #[trigger] m.contains(h) <==> is_member(av, chain_id@, h),
            forall|j: int, q: int|
                0 <= j < k && 0 <= q < av[j].prev.len() && is_member(av, chain_id@, (#[trigger] av[j]).hash)
                    ==> hashes_of(av).contains(#[trigger] av[j].prev[q]) || ext.contains(av[j].prev[q]),
        decreases arts@.len() - k,
    {
        assert(av[k as int] == arts@[k as int]@);
        if in_members(arts, chain_id, flags, &arts[k].hash) {
            assert(m.contains(av[k as int].hash));
            let prev = &arts[k].prev;
            let mut q: usize = 0;
            while q < prev.len()
                invariant
                    0 <= q <= prev@.len(),
                    k < arts@.len(),
                    av == arts_view(arts@),
                    ext == digests(external_refs@),
                    av[k as int].prev == digests(prev@),
                    is_member(av, chain_id@, av[k as int].hash),
                    forall|t: int|
                        0 <= t < q ==> hashes_of(av).contains(#[trigger] av[k as int].prev[t]) || ext.contains(
                            av[k as int].prev[t],
                        ),
                decreases prev@.len() - q,
            {
                assert(av[k as int].prev[q as int] == prev@[q as int]@);
                if !is_input(arts, &prev[q]) && !contains_digest(external_refs, &prev[q]) {
                    assert(!hashes_of(av).contains(av[k as int].prev[q as int]));
                    assert(!ext.contains(av[k as int].prev[q as int]));
                    return true;
                }
                q += 1;
            }
        }
        k += 1;
    }
    false
}

/// Whether artifact `k` is the first with its hash.
fn first_with_hash(arts: &Vec<Artifact>, k: usize) -> (r: bool)
    requires
        k < arts@.len(),
    ensures
        r == first_of_hash(arts_view(arts@), k as int),
{
    let ghost av = arts_view(arts@);
    assert(av[k as int] == arts@[k as int]@);
    let mut j: usize = 0;
    while j < k
        invariant
            0 <= j <= k < arts@.len(),
            av == arts_view(arts@),
            forall|i: int| 0 <= i < j ==> (#[trigger] av[i]).hash != av[k as int].hash,
        decreases k - j,
    {
        assert(av[j as int] == arts@[j as int]@);
        if eq32(&arts[j].hash, &arts[k].hash) {
            return false;
        }
        j += 1;
    }
    true
}

/// The two artifacts share a predecessor entry.
fn shares_prev_entry(a: &Artifact, b: &Artifact) -> (r: bool)
    ensures
        r == shares_prev(a@, b@),
{
    let mut q: usize = 0;
    while q < a.prev.len()
        invariant
            0 <= q <= a.prev@.len(),
            forall|t: int| 0 <= t < q ==> !b@.prev.contains(#[trigger] a@.prev[t]),
        decreases a.prev@.len() - q,
    {
        assert(a@.prev[q as int] == a.prev@[q as int]@);
        if contains_digest(b.prev.as_slice(), &a.prev[q]) {
            return true;
        }
        q += 1;
    }
    false
}

/// The two artifacts share a signer key.
fn shares_signer_key(a: &Artifact, b: &Artifact) -> (r: bool)
    ensures
        r == shares_signer(a@, b@),
{
    let mut q: usize = 0;
    while q < a.pubkeys.len()
        invariant
            0 <= q <= a.pubkeys@.len(),
            forall|t: int| 0 <= t < q ==> !b@.pubkeys.contains(#[trigger] a@.pubkeys[t]),
        decreases a.pubkeys@.len() - q,
    {
        assert(a@.pubkeys[q as int] == a.pubkeys@[q as int]@);
        let mut t: usize = 0;
        while t < b.pubkeys.len()
            invariant
                0 <= t <= b.pubkeys@.len(),
                q < a.pubkeys@.len(),
                forall|u: int| 0 <= u < t ==> b@.pubkeys[u] != a@.pubkeys[q as int],
            decreases b.pubkeys@.len() - t,
        {
            assert(b@.pubkeys[t as int] == b.pubkeys@[t as int]@);
            if bytes_eq(b.pubkeys[t].as_slice(), a.pubkeys[q].as_slice()) {
                assert(b@.pubkeys[t as int] == a@.pubkeys[q as int]);
                assert(b@.pubkeys.contains(a@.pubkeys[q as int]));
                return true;
            }
            t += 1;
        }
        q += 1;
    }
    false
}

/// C4: equivocation is any signer whose key appears on two distinct claims
/// (by hash) that share at least one predecessor entry. Type and role are
/// irrelevant by design: that is what makes the rule evasion-proof.
fn any_equivocation(arts: &Vec<Artifact>) -> (r: bool)
    ensures
        r == has_equivocation(arts_view(arts@)),
{
    let ghost av = arts_view(arts@);
    let mut i: usize = 0;
    while i < arts.len()
        invariant
            0 <= i <= arts@.len(),
            av == arts_view(arts@),
            forall|a: int, b: int|
                0 <= a < i && a < b < av.len() && first_of_hash(av, a) && first_of_hash(av, b) ==> !(
                shares_prev(#[trigger] av[a], #[trigger] av[b]) && shares_signer(av[a], av[b])),
        decreases arts@.len() - i,
    {
        if first_with_hash(arts, i) {
            let mut j: usize = i + 1;
            while j < arts.len()
                invariant
                    i < arts@.len(),
                    i + 1 <= j <= arts@.len(),
                    av == arts_view(arts@),
                    first_of_hash(av, i as int),
                    forall|b: int|
                        i < b < j && first_of_hash(av, b) ==> !(shares_prev(av[i as int], #[trigger] av[b])
                            && shares_signer(av[i as int], av[b])),
                decreases arts@.len() - j,
            {
                assert(av[i as int] == arts@[i as int]@);
                assert(av[j as int] == arts@[j as int]@);
                if first_with_hash(arts, j) && shares_prev_entry(&arts[i], &arts[j]) && shares_signer_key(
                    &arts[i],
                    &arts[j],
                ) {
                    return true;
                }
                j += 1;
            }
        }
        i += 1;
    }
    false
}

/// Verify a set of BCF artifacts as a chain rooted at `chain_id`.
///
/// `external_refs` lists predecessor hashes the caller accepts as
/// legitimately absent (caller policy, not a default). Returns the first
/// `E_*` failure in C1–C4 order, or `Ok(())`.
pub fn verify_chain(
    envelopes: &[Vec<u8>],
    chain_id: &[u8; 32],
    expected_domain: &str,
    external_refs: &[[u8; 32]],
) -> (r: Result<(), Error>)
    ensures
        r == verify_chain_spec(byte_vecs(envelopes@), chain_id@, expected_domain@, digests(external_refs@)),
{
    // C1 — every artifact (members and imports alike) is a valid BCF artifact.
    let arts = collect_artifacts(envelopes, expected_domain)?;

    // A claim must not list the same predecessor twice.
    if any_duplicate_prev(&arts) {
        return Err(Error::ChainStructure);
    }

    // C2 — exactly one input artifact matches chain_id, and it is a genesis.
    if !root_check(&arts, chain_id) {
        return Err(Error::ChainRoot);
    }
    let members = compute_members(&arts, chain_id);

    // An artifact referenced by a member's prev but not itself a member is
    // an import; an artifact that is neither is unrelated to this chain.
    if any_unreachable(&arts, chain_id, &members) {
        return Err(Error::ChainUnreachable);
    }

    // C3 — every member's prev resolves to an input artifact or external_refs.
    if any_gap(&arts, chain_id, &members, external_refs) {
        return Err(Error::ChainGap);
    }

    // C4 — no signer on two distinct claims that share a predecessor entry.
    if any_equivocation(&arts) {
        return Err(Error::Equivocation);
    }
    Ok(())
}

/// C1 collects, in order, the chain facts of every envelope, each of
/// which verifies.
pub proof fn lemma_artifacts_from(
    envelopes: Seq<Seq<u8>>,
    expected_domain: Seq<char>,
    i: int,
    acc: Seq<ArtifactModel>,
)
    requires
        0 <= i <= envelopes.len(),
    ensures
        artifacts_from(envelopes, expected_domain, i, acc) matches Ok(arts) ==> {
            &&& arts.len() == acc.len() + envelopes.len() - i
            &&& forall|q: int| 0 <= q < acc.len() ==> arts[q] == acc[q]
            &&& forall|k: int|
                i <= k < envelopes.len() ==> (verify_bcf_spec(#[trigger] envelopes[k], expected_domain, None) matches Ok(
                    v,
                ) && arts[acc.len() + k - i] == artifact_of(v))
        },
    decreases envelopes.len() - i,
{
    reveal(artifacts_from);
    if i < envelopes.len() {
        if let Ok(v) = verify_bcf_spec(envelopes[i], expected_domain, None) {
            lemma_artifacts_from(envelopes, expected_domain, i + 1, acc.push(artifact_of(v)));
        }
    }
}

/// C1 fails only with an artifact code.
proof fn lemma_artifacts_from_errors(
    envelopes: Seq<Seq<u8>>,
    expected_domain: Seq<char>,
    i: int,
    acc: Seq<ArtifactModel>,
)
    ensures
        artifacts_from(envelopes, expected_domain, i, acc) matches Err(e) ==> artifact_error(e),
    decreases envelopes.len() - i,
{
    reveal(artifacts_from);
    if 0 <= i < envelopes.len() {
        law_artifact_errors(envelopes[i], expected_domain, None);
        if let Ok(v) = verify_bcf_spec(envelopes[i], expected_domain, None) {
            lemma_artifacts_from_errors(envelopes, expected_domain, i + 1, acc.push(artifact_of(v)));
        }
    }
}

proof fn lemma_equivocation_verdict(
    envelopes: Seq<Seq<u8>>,
    chain_id: Seq<u8>,
    expected_domain: Seq<char>,
    external_refs: Seq<Seq<u8>>,
)
    requires
        verify_chain_spec(envelopes, chain_id, expected_domain, external_refs) == Err::<(), Error>(
            Error::Equivocation,
        ),
    ensures
        artifacts_from(envelopes, expected_domain, 0, Seq::empty()) matches Ok(arts) && has_equivocation(arts),
{
    lemma_artifacts_from_errors(envelopes, expected_domain, 0, Seq::empty());
}

/// An equivocation verdict is self-contained evidence: two of the presented
/// envelopes each verify on their own, are distinct claims, share a
/// predecessor entry, and share a signer key.
pub proof fn law_equivocation_evidence(
    envelopes: Seq<Seq<u8>>,
    chain_id: Seq<u8>,
    expected_domain: Seq<char>,
    external_refs: Seq<Seq<u8>>,
)
    requires
        verify_chain_spec(envelopes, chain_id, expected_domain, external_refs) == Err::<(), Error>(
            Error::Equivocation,
        ),
    ensures
        exists|i: int, j: int|
            0 <= i < envelopes.len() && 0 <= j < envelopes.len() && (verify_bcf_spec(
                #[trigger] envelopes[i],
                expected_domain,
                None,
            ) matches Ok(vi) && verify_bcf_spec(#[trigger] envelopes[j], expected_domain, None) matches Ok(vj)
                && vi.claim_hash != vj.claim_hash && shares_prev(artifact_of(vi), artifact_of(vj))
                && shares_signer(artifact_of(vi), artifact_of(vj))),
{
    lemma_artifacts_from(envelopes, expected_domain, 0, Seq::empty());
    lemma_equivocation_verdict(envelopes, chain_id, expected_domain, external_refs);
    let arts = artifacts_from(envelopes, expected_domain, 0, Seq::empty())->Ok_0;
    let (i, j) = choose|i: int, j: int|
        0 <= i < j < arts.len() && first_of_hash(arts, i) && first_of_hash(arts, j) && shares_prev(
            #[trigger] arts[i],
            #[trigger] arts[j],
        ) && shares_signer(arts[i], arts[j]);
    let ri = verify_bcf_spec(envelopes[i], expected_domain, None);
    let rj = verify_bcf_spec(envelopes[j], expected_domain, None);
    assert(ri matches Ok(v) && arts[i] == artifact_of(v));
    assert(rj matches Ok(v) && arts[j] == artifact_of(v));
    assert(arts[j].hash != arts[i].hash);
}

// ---------------------------------------------------------------------------
// The verdict depends on the set of artifacts, not their order
// ---------------------------------------------------------------------------

proof fn lemma_rearranged_hashes(a: Seq<ArtifactModel>, b: Seq<ArtifactModel>, p: spec_fn(int) -> int, q: spec_fn(int) -> int)
    requires
        rearranged(a, b, p, q),
    ensures
        forall|x: Seq<u8>| #[trigger] hashes_of(a).contains(x) <==> hashes_of(b).contains(x),
{
    lemma_rearranged_symmetric(a, b, p, q);
    assert forall|x: Seq<u8>| #[trigger] hashes_of(a).contains(x) <==> hashes_of(b).contains(x) by {
        if hashes_of(a).contains(x) {
            let k = choose|k: int| 0 <= k < hashes_of(a).len() && hashes_of(a)[k] == x;
            assert(b[q(k)] == a[k]);
            assert(hashes_of(b)[q(k)] == x);
        }
        if hashes_of(b).contains(x) {
            let k = choose|k: int| 0 <= k < hashes_of(b).len() && hashes_of(b)[k] == x;
            assert(hashes_of(a)[p(k)] == x);
        }
    }
}

proof fn lemma_rearranged_reach(
    a: Seq<ArtifactModel>,
    b: Seq<ArtifactModel>,
    p: spec_fn(int) -> int,
    q: spec_fn(int) -> int,
    chain_id: Seq<u8>,
    n: nat,
)
    requires
        rearranged(a, b, p, q),
    ensures
        reach(a, chain_id, n) == reach(b, chain_id, n),
    decreases n,
{
    lemma_rearranged_symmetric(a, b, p, q);
    if n > 0 {
        lemma_rearranged_reach(a, b, p, q, chain_id, (n - 1) as nat);
        let m = reach(a, chain_id, (n - 1) as nat);
        assert forall|h: Seq<u8>| grow(a, m).contains(h) <==> grow(b, m).contains(h) by {
            if grow(a, m).contains(h) && !m.contains(h) {
                let k = choose|k: int|
                    0 <= k < a.len() && (#[trigger] a[k]).hash == h && exists|t: int|
                        0 <= t < a[k].prev.len() && m.contains(#[trigger] a[k].prev[t]);
                assert(b[q(k)] == a[k]);
            }
            if grow(b, m).contains(h) && !m.contains(h) {
                let k = choose|k: int|
                    0 <= k < b.len() && (#[trigger] b[k]).hash == h && exists|t: int|
                        0 <= t < b[k].prev.len() && m.contains(#[trigger] b[k].prev[t]);
                assert(a[p(k)] == b[k]);
            }
        }
        assert(grow(a, m) =~= grow(b, m));
    }
}

proof fn lemma_rearranged_member(
    a: Seq<ArtifactModel>,
    b: Seq<ArtifactModel>,
    p: spec_fn(int) -> int,
    q: spec_fn(int) -> int,
    chain_id: Seq<u8>,
)
    requires
        rearranged(a, b, p, q),
    ensures
        forall|h: Seq<u8>| #[trigger] is_member(a, chain_id, h) <==> is_member(b, chain_id, h),
{
    assert forall|h: Seq<u8>| #[trigger] is_member(a, chain_id, h) <==> is_member(b, chain_id, h) by {
        if is_member(a, chain_id, h) {
            let n = choose|n: nat| #[trigger] reach(a, chain_id, n).contains(h);
            lemma_rearranged_reach(a, b, p, q, chain_id, n);
            assert(reach(b, chain_id, n).contains(h));
        }
        if is_member(b, chain_id, h) {
            let n = choose|n: nat| #[trigger] reach(b, chain_id, n).contains(h);
            lemma_rearranged_reach(a, b, p, q, chain_id, n);
            assert(reach(a, chain_id, n).contains(h));
        }
    }
}

/// One direction of each C2–C3 condition under rearrangement.
proof fn lemma_rearranged_conditions(
    a: Seq<ArtifactModel>,
    b: Seq<ArtifactModel>,
    p: spec_fn(int) -> int,
    q: spec_fn(int) -> int,
    chain_id: Seq<u8>,
    external_refs: Seq<Seq<u8>>,
)
    requires
        rearranged(a, b, p, q),
    ensures
        has_duplicate_prev(a) ==> has_duplicate_prev(b),
        root_ok(a, chain_id) ==> root_ok(b, chain_id),
        has_unreachable(a, chain_id) ==> has_unreachable(b, chain_id),
        has_gap(a, chain_id, external_refs) ==> has_gap(b, chain_id, external_refs),
{
    lemma_rearranged_symmetric(a, b, p, q);
    lemma_rearranged_member(a, b, p, q, chain_id);
    lemma_rearranged_hashes(a, b, p, q);
    if has_duplicate_prev(a) {
        let k = choose|k: int| 0 <= k < a.len() && !(#[trigger] a[k]).prev.no_duplicates();
        assert(b[q(k)] == a[k]);
    }
    if root_ok(a, chain_id) {
        let g = choose|g: int|
            0 <= g < a.len() && (#[trigger] a[g]).hash == chain_id && a[g].prev.len() == 0 && forall|k: int|
                0 <= k < a.len() && (#[trigger] a[k]).hash == chain_id ==> k == g;
        assert(b[q(g)] == a[g]);
        assert forall|k: int| 0 <= k < b.len() && (#[trigger] b[k]).hash == chain_id implies k == q(g) by {
            assert(a[p(k)] == b[k]);
        }
    }
    if has_unreachable(a, chain_id) {
        let k = choose|k: int|
            0 <= k < a.len() && !is_member(a, chain_id, (#[trigger] a[k]).hash) && !is_import(a, chain_id, k);
        assert(b[q(k)] == a[k]);
        if is_import(b, chain_id, q(k)) {
            let j = choose|j: int|
                0 <= j < b.len() && is_member(b, chain_id, (#[trigger] b[j]).hash) && b[j].prev.contains(
                    b[q(k)].hash,
                );
            assert(a[p(j)] == b[j]);
            assert(is_import(a, chain_id, k));
        }
    }
    if has_gap(a, chain_id, external_refs) {
        let (k, t) = choose|k: int, t: int|
            0 <= k < a.len() && 0 <= t < a[k].prev.len() && is_member(a, chain_id, (#[trigger] a[k]).hash)
                && !hashes_of(a).contains(#[trigger] a[k].prev[t]) && !external_refs.contains(a[k].prev[t]);
        assert(b[q(k)] == a[k]);
        assert(b[q(k)].prev[t] == a[k].prev[t]);
    }
}

/// Artifacts with equal hashes are equal (no two distinct claims collide).
pub open spec fn hashes_identify(arts: Seq<ArtifactModel>) -> bool {
    forall|i: int, j: int|
        0 <= i < arts.len() && 0 <= j < arts.len() && (#[trigger] arts[i]).hash == (#[trigger] arts[j]).hash
            ==> arts[i] == arts[j]
}

/// Two distinct claims (by hash) share a predecessor entry and a signer.
spec fn distinct_pair_equivocates(arts: Seq<ArtifactModel>) -> bool {
    exists|i: int, j: int|
        0 <= i < arts.len() && 0 <= j < arts.len() && (#[trigger] arts[i]).hash != (#[trigger] arts[j]).hash
            && shares_prev(arts[i], arts[j]) && shares_signer(arts[i], arts[j])
}

spec fn first_with(arts: Seq<ArtifactModel>, h: Seq<u8>, k: int) -> int
    decreases arts.len() - k,
{
    if k < 0 || k >= arts.len() {
        arts.len() as int
    } else if arts[k].hash == h {
        k
    } else {
        first_with(arts, h, k + 1)
    }
}

proof fn lemma_first_with(arts: Seq<ArtifactModel>, h: Seq<u8>, k: int, i: int)
    requires
        0 <= k <= i < arts.len(),
        arts[i].hash == h,
    ensures
        k <= first_with(arts, h, k) <= i,
        arts[first_with(arts, h, k)].hash == h,
        forall|j: int| k <= j < first_with(arts, h, k) ==> (#[trigger] arts[j]).hash != h,
    decreases arts.len() - k,
{
    if arts[k].hash != h {
        lemma_first_with(arts, h, k + 1, i);
    }
}

proof fn lemma_shares_symmetric(a: ArtifactModel, b: ArtifactModel)
    ensures
        shares_prev(a, b) == shares_prev(b, a),
        shares_signer(a, b) == shares_signer(b, a),
{
    if shares_prev(a, b) {
        let t = choose|t: int| 0 <= t < a.prev.len() && b.prev.contains(#[trigger] a.prev[t]);
        let u = choose|u: int| 0 <= u < b.prev.len() && b.prev[u] == a.prev[t];
        assert(a.prev.contains(b.prev[u]));
    }
    if shares_prev(b, a) {
        let t = choose|t: int| 0 <= t < b.prev.len() && a.prev.contains(#[trigger] b.prev[t]);
        let u = choose|u: int| 0 <= u < a.prev.len() && a.prev[u] == b.prev[t];
        assert(b.prev.contains(a.prev[u]));
    }
    if shares_signer(a, b) {
        let t = choose|t: int| 0 <= t < a.pubkeys.len() && b.pubkeys.contains(#[trigger] a.pubkeys[t]);
        let u = choose|u: int| 0 <= u < b.pubkeys.len() && b.pubkeys[u] == a.pubkeys[t];
        assert(a.pubkeys.contains(b.pubkeys[u]));
    }
    if shares_signer(b, a) {
        let t = choose|t: int| 0 <= t < b.pubkeys.len() && a.pubkeys.contains(#[trigger] b.pubkeys[t]);
        let u = choose|u: int| 0 <= u < a.pubkeys.len() && a.pubkeys[u] == b.pubkeys[t];
        assert(b.pubkeys.contains(a.pubkeys[u]));
    }
}

/// Without hash collisions, C4 compares claims, whichever copy of each.
proof fn lemma_equivocation_by_claims(arts: Seq<ArtifactModel>)
    requires
        hashes_identify(arts),
    ensures
        has_equivocation(arts) == distinct_pair_equivocates(arts),
{
    if has_equivocation(arts) {
        let (i, j) = choose|i: int, j: int|
            0 <= i < j < arts.len() && first_of_hash(arts, i) && first_of_hash(arts, j) && shares_prev(
                #[trigger] arts[i],
                #[trigger] arts[j],
            ) && shares_signer(arts[i], arts[j]);
        assert(arts[i].hash != arts[j].hash);
    }
    if distinct_pair_equivocates(arts) {
        let (i, j) = choose|i: int, j: int|
            0 <= i < arts.len() && 0 <= j < arts.len() && (#[trigger] arts[i]).hash != (#[trigger] arts[j]).hash
                && shares_prev(arts[i], arts[j]) && shares_signer(arts[i], arts[j]);
        lemma_first_with(arts, arts[i].hash, 0, i);
        lemma_first_with(arts, arts[j].hash, 0, j);
        let fi = first_with(arts, arts[i].hash, 0);
        let fj = first_with(arts, arts[j].hash, 0);
        assert(arts[fi] == arts[i]);
        assert(arts[fj] == arts[j]);
        assert(first_of_hash(arts, fi));
        assert(first_of_hash(arts, fj));
        lemma_shares_symmetric(arts[i], arts[j]);
        if fi < fj {
            assert(shares_prev(arts[fi], arts[fj]) && shares_signer(arts[fi], arts[fj]));
        } else {
            assert(fj < fi);
            assert(shares_prev(arts[fj], arts[fi]) && shares_signer(arts[fj], arts[fi]));
        }
    }
}

proof fn lemma_rearranged_equivocation(
    a: Seq<ArtifactModel>,
    b: Seq<ArtifactModel>,
    p: spec_fn(int) -> int,
    q: spec_fn(int) -> int,
)
    requires
        rearranged(a, b, p, q),
        hashes_identify(a),
    ensures
        hashes_identify(b),
        has_equivocation(a) == has_equivocation(b),
{
    lemma_rearranged_symmetric(a, b, p, q);
    assert forall|i: int, j: int|
        0 <= i < b.len() && 0 <= j < b.len() && (#[trigger] b[i]).hash == (#[trigger] b[j]).hash implies b[i]
        == b[j] by {
        assert(a[p(i)] == b[i] && a[p(j)] == b[j]);
    }
    lemma_equivocation_by_claims(a);
    lemma_equivocation_by_claims(b);
    if distinct_pair_equivocates(a) {
        let (i, j) = choose|i: int, j: int|
            0 <= i < a.len() && 0 <= j < a.len() && (#[trigger] a[i]).hash != (#[trigger] a[j]).hash
                && shares_prev(a[i], a[j]) && shares_signer(a[i], a[j]);
        assert(b[q(i)] == a[i] && b[q(j)] == a[j]);
    }
    if distinct_pair_equivocates(b) {
        let (i, j) = choose|i: int, j: int|
            0 <= i < b.len() && 0 <= j < b.len() && (#[trigger] b[i]).hash != (#[trigger] b[j]).hash
                && shares_prev(b[i], b[j]) && shares_signer(b[i], b[j]);
        assert(a[p(i)] == b[i] && a[p(j)] == b[j]);
    }
}

/// Every envelope verifies exactly when C1 succeeds.
proof fn lemma_artifacts_all_verify(envelopes: Seq<Seq<u8>>, expected_domain: Seq<char>, i: int, acc: Seq<ArtifactModel>)
    requires
        0 <= i <= envelopes.len(),
        forall|k: int| i <= k < envelopes.len() ==> verify_bcf_spec(#[trigger] envelopes[k], expected_domain, None) is Ok,
    ensures
        artifacts_from(envelopes, expected_domain, i, acc) is Ok,
    decreases envelopes.len() - i,
{
    reveal(artifacts_from);
    if i < envelopes.len() {
        let v = verify_bcf_spec(envelopes[i], expected_domain, None)->Ok_0;
        lemma_artifacts_all_verify(envelopes, expected_domain, i + 1, acc.push(artifact_of(v)));
    }
}

/// The chain facts of a list of envelopes, once all of them verify.
spec fn facts_of(envelopes: Seq<Seq<u8>>, expected_domain: Seq<char>) -> Seq<ArtifactModel> {
    Seq::new(envelopes.len(), |k: int| artifact_of(verify_bcf_spec(envelopes[k], expected_domain, None)->Ok_0))
}

/// Two verification results with equal claim hashes carry the same claim
/// facts.
pub open spec fn same_hash_same_facts(r1: Result<VerifiedModel, Error>, r2: Result<VerifiedModel, Error>) -> bool {
    match (r1, r2) {
        (Ok(v1), Ok(v2)) => v1.claim_hash == v2.claim_hash ==> artifact_of(v1) == artifact_of(v2),
        _ => true,
    }
}

/// Among the envelopes that verify, equal claim hashes mean equal claims.
pub open spec fn claims_identified(envelopes: Seq<Seq<u8>>, expected_domain: Seq<char>) -> bool {
    forall|i: int, j: int|
        0 <= i < envelopes.len() && 0 <= j < envelopes.len() ==> same_hash_same_facts(
            verify_bcf_spec(#[trigger] envelopes[i], expected_domain, None),
            verify_bcf_spec(#[trigger] envelopes[j], expected_domain, None),
        )
}

/// A chain is a set of artifacts: presenting the same envelopes in another
/// order gives the same verdict when every envelope verifies, and in any
/// case the same acceptance. (The one assumption: two envelopes whose
/// claims hash alike carry the same claim facts.)
pub proof fn law_chain_order_independent(
    envelopes_1: Seq<Seq<u8>>,
    envelopes_2: Seq<Seq<u8>>,
    p: spec_fn(int) -> int,
    q: spec_fn(int) -> int,
    chain_id: Seq<u8>,
    expected_domain: Seq<char>,
    external_refs: Seq<Seq<u8>>,
)
    requires
        rearranged(envelopes_1, envelopes_2, p, q),
        claims_identified(envelopes_1, expected_domain),
    ensures
        verify_chain_spec(envelopes_1, chain_id, expected_domain, external_refs) is Ok
            <==> verify_chain_spec(envelopes_2, chain_id, expected_domain, external_refs) is Ok,
        (forall|k: int|
            0 <= k < envelopes_1.len() ==> verify_bcf_spec(#[trigger] envelopes_1[k], expected_domain, None) is Ok)
            ==> verify_chain_spec(envelopes_1, chain_id, expected_domain, external_refs) == verify_chain_spec(
            envelopes_2,
            chain_id,
            expected_domain,
            external_refs,
        ),
{
    let (e1, e2) = (envelopes_1, envelopes_2);
    lemma_rearranged_symmetric(e1, e2, p, q);
    lemma_artifacts_from(e1, expected_domain, 0, Seq::empty());
    lemma_artifacts_from(e2, expected_domain, 0, Seq::empty());
    let all1 = forall|k: int| 0 <= k < e1.len() ==> verify_bcf_spec(#[trigger] e1[k], expected_domain, None) is Ok;
    let all2 = forall|k: int| 0 <= k < e2.len() ==> verify_bcf_spec(#[trigger] e2[k], expected_domain, None) is Ok;
    assert(all1 == all2) by {
        if all1 {
            assert forall|k: int| 0 <= k < e2.len() implies verify_bcf_spec(#[trigger] e2[k], expected_domain, None) is Ok by {
                assert(e2[k] == e1[p(k)]);
            }
        }
        if all2 {
            assert forall|k: int| 0 <= k < e1.len() implies verify_bcf_spec(#[trigger] e1[k], expected_domain, None) is Ok by {
                assert(e1[k] == e2[q(k)]);
            }
        }
    }
    if all1 {
        lemma_artifacts_all_verify(e1, expected_domain, 0, Seq::empty());
        lemma_artifacts_all_verify(e2, expected_domain, 0, Seq::empty());
        let a = artifacts_from(e1, expected_domain, 0, Seq::empty())->Ok_0;
        let b = artifacts_from(e2, expected_domain, 0, Seq::empty())->Ok_0;
        assert(a =~= facts_of(e1, expected_domain));
        assert(b =~= facts_of(e2, expected_domain));
        assert(rearranged(a, b, p, q)) by {
            assert forall|i: int| 0 <= i < a.len() implies b[i] == a[#[trigger] p(i)] by {
                assert(e2[i] == e1[p(i)]);
            }
        }
        assert(hashes_identify(a)) by {
            assert forall|i: int, j: int|
                0 <= i < a.len() && 0 <= j < a.len() && (#[trigger] a[i]).hash == (#[trigger] a[j]).hash implies a[i]
                == a[j] by {
                assert(verify_bcf_spec(e1[i], expected_domain, None) is Ok);
                assert(verify_bcf_spec(e1[j], expected_domain, None) is Ok);
            }
        }
        lemma_rearranged_conditions(a, b, p, q, chain_id, external_refs);
        lemma_rearranged_conditions(b, a, q, p, chain_id, external_refs);
        lemma_rearranged_equivocation(a, b, p, q);
    } else {
        let k = choose|k: int| 0 <= k < e1.len() && !(verify_bcf_spec(#[trigger] e1[k], expected_domain, None) is Ok);
        assert(e2[q(k)] == e1[k]);
    }
}

/// Accepting more external references never turns an accepted chain into a
/// rejected one: with any superset `more_refs` of `external_refs`, the
/// verdict is the same unless it was a member gap (C3).
pub proof fn law_chain_more_refs(
    envelopes: Seq<Seq<u8>>,
    chain_id: Seq<u8>,
    expected_domain: Seq<char>,
    external_refs: Seq<Seq<u8>>,
    more_refs: Seq<Seq<u8>>,
)
    requires
        forall|x: Seq<u8>| #[trigger] external_refs.contains(x) ==> more_refs.contains(x),
    ensures
        verify_chain_spec(envelopes, chain_id, expected_domain, external_refs) != Err::<(), Error>(
            Error::ChainGap,
        ) ==> verify_chain_spec(envelopes, chain_id, expected_domain, more_refs) == verify_chain_spec(
            envelopes,
            chain_id,
            expected_domain,
            external_refs,
        ),
        verify_chain_spec(envelopes, chain_id, expected_domain, external_refs) is Ok ==> verify_chain_spec(
            envelopes,
            chain_id,
            expected_domain,
            more_refs,
        ) is Ok,
{
    if let Ok(arts) = artifacts_from(envelopes, expected_domain, 0, Seq::empty()) {
        if has_gap(arts, chain_id, more_refs) {
            let (k, q) = choose|k: int, q: int|
                0 <= k < arts.len() && 0 <= q < arts[k].prev.len() && is_member(
                    arts,
                    chain_id,
                    (#[trigger] arts[k]).hash,
                ) && !hashes_of(arts).contains(#[trigger] arts[k].prev[q]) && !more_refs.contains(arts[k].prev[q]);
            assert(has_gap(arts, chain_id, external_refs));
        }
    }
}

/// Acceptance ignores input order and survives more external references:
/// an accepted chain, presented in another order with a superset of the
/// external references, is accepted. (The one assumption, as for
/// [`law_chain_order_independent`]: two envelopes whose claims hash alike
/// carry the same claim facts.)
pub proof fn law_chain_accept_stable(
    envelopes_1: Seq<Seq<u8>>,
    envelopes_2: Seq<Seq<u8>>,
    p: spec_fn(int) -> int,
    q: spec_fn(int) -> int,
    chain_id: Seq<u8>,
    expected_domain: Seq<char>,
    external_refs: Seq<Seq<u8>>,
    more_refs: Seq<Seq<u8>>,
)
    requires
        rearranged(envelopes_1, envelopes_2, p, q),
        claims_identified(envelopes_1, expected_domain),
        forall|x: Seq<u8>| #[trigger] external_refs.contains(x) ==> more_refs.contains(x),
        verify_chain_spec(envelopes_1, chain_id, expected_domain, external_refs) is Ok,
    ensures
        verify_chain_spec(envelopes_2, chain_id, expected_domain, more_refs) is Ok,
{
    law_chain_more_refs(envelopes_1, chain_id, expected_domain, external_refs, more_refs);
    law_chain_order_independent(envelopes_1, envelopes_2, p, q, chain_id, expected_domain, more_refs);
}

} // verus!
