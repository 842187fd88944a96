//! Chain-head publication: a single-signer COSE_Sign1 commitment to the set
//! of member `claim_hash`es a party attests to for a chain, via an RFC 6962
//! Merkle root over the sorted, deduplicated member set. Inclusion proofs make
//! withholding attributable; head-fork detection is the across-presentation
//! equivocation guard.
use crate::bytes::{bytes_eq, eq32, text_eq};
use crate::cbor::{decode_canonical, decode_canonical_spec};
use crate::claim::{party_entry, party_entry_spec, Party, PartyModel};
use crate::cose1::{self, alg_kid_spec, body_spec, lemma_body_spec, signature_ok_spec, FieldKind};
use crate::error::Error;
use crate::hash::{sha256, sha256_spec};
use crate::merkle::{
    audit_path, canonical_leaves, digests, inclusion_ok, is_superset, law_inclusion_complete, lemma_canonical_leaves,
    merkle_root, merkle_root_spec, sorted_dedup,
};
use crate::sig::cose_id_spec;
use vstd::prelude::*;

verus! {

/// The expected chain-head domain separator.
pub const HEAD_DOMAIN: &'static str = "BCF-HEAD/1";

/// A verified chain head.
#[derive(Debug, Clone, PartialEq, Eq)]
pub struct Head {
    /// The chain this head commits to (genesis `claim_hash`).
    pub chain_id: [u8; 32],
    /// The Merkle root over the sorted member set.
    pub root: [u8; 32],
    /// Number of distinct committed leaves: the authoritative tree size,
    /// checked to fit `u64` so it binds inclusion proofs without a lossy
    /// conversion at the call site.
    pub count: u64,
    /// Publication time (POSIX seconds).
    pub published_at: i128,
    /// The signer.
    pub publisher: Party,
}

/// The content of a verified chain head.
pub ghost struct HeadModel {
    pub chain_id: Seq<u8>,
    pub root: Seq<u8>,
    pub count: nat,
    pub published_at: int,
    pub publisher: PartyModel,
}

impl View for Head {
    type V = HeadModel;

    open spec fn view(&self) -> HeadModel {
        HeadModel {
            chain_id: self.chain_id@,
            root: self.root@,
            count: self.count as nat,
            published_at: self.published_at as int,
            publisher: self.publisher@,
        }
    }
}

/// The verdict of a fork check.
#[derive(Debug, Clone, Copy, PartialEq, Eq, Structural)]
pub enum ForkVerdict {
    /// Two irreconcilable signed views by one publisher for one chain.
    Fork,
    /// Not a fork: equal roots, honest growth, or not comparable.
    NoFork,
}

/// The head body: {1: domain, 2: chain_id, 3: root, 4: count,
/// 5: published_at, 6: publisher}.
pub open spec fn head_kinds() -> Seq<FieldKind> {
    seq![
        FieldKind::Text,
        FieldKind::Bytes32,
        FieldKind::Bytes32,
        FieldKind::Int,
        FieldKind::Int,
        FieldKind::Any,
    ]
}

/// What [`verify_head`] returns: the receipt's R1–R5 with head body keys
/// {1..6}, where `count` must be a non-negative integer that fits `u64`.
pub open spec fn verify_head_spec(bytes: Seq<u8>, expected_domain: Seq<char>) -> Result<
    HeadModel,
    Error,
> {
    match cose1::parse_spec(bytes) {
        Err(e) => Err(e),
        Ok(s) => match decode_canonical_spec(s.payload) {
            Err(_) => Err(Error::HeadStructure),
            Ok(body) => match body_spec(body, head_kinds(), Error::HeadStructure) {
                Err(e) => Err(e),
                Ok(f) => if f[0] is None || f[1] is None || f[2] is None || f[3] is None || f[4] is None
                    || f[5] is None {
                    Err(Error::HeadStructure)
                } else if f[3]->0->Int_0 < 0 || f[3]->0->Int_0 > u64::MAX {
                    Err(Error::HeadStructure)
                } else if f[0]->0->Text_0 != expected_domain {
                    Err(Error::HeadDomain)
                } else {
                    match party_entry_spec(f[5]->0) {
                        Err(_) => Err(Error::HeadStructure),
                        Ok(p) => match alg_kid_spec(s.protected, Error::HeadStructure) {
                            Err(e) => Err(e),
                            Ok((alg, kid)) => if alg != cose_id_spec(p.alg) || kid != sha256_spec(
                                p.pubkey,
                            ) {
                                Err(Error::HeadStructure)
                            } else if !signature_ok_spec(s, p.alg, p.pubkey) {
                                Err(Error::HeadSig)
                            } else {
                                Ok(
                                    HeadModel {
                                        chain_id: f[1]->0->Bytes_0,
                                        root: f[2]->0->Bytes_0,
                                        count: f[3]->0->Int_0 as nat,
                                        published_at: f[4]->0->Int_0,
                                        publisher: p,
                                    },
                                )
                            },
                        },
                    }
                },
            },
        },
    }
}

/// Verify a chain head against `expected_domain` (`"BCF-HEAD/1"`), mirroring
/// the receipt's R1–R5 with head body keys {1..6}.
pub fn verify_head(bytes: &[u8], expected_domain: &str) -> (r: Result<Head, Error>)
    ensures
        r matches Ok(h) ==> verify_head_spec(bytes@, expected_domain@) == Ok::<HeadModel, Error>(
            h@,
        ),
        r matches Err(e) ==> verify_head_spec(bytes@, expected_domain@) == Err::<HeadModel, Error>(
            e,
        ),
{
    let sign1 = cose1::parse(bytes)?;
    let body = match decode_canonical(sign1.payload.as_slice()) {
        Ok(b) => b,
        Err(_) => return Err(Error::HeadStructure),
    };
    let kinds = [
        FieldKind::Text,
        FieldKind::Bytes32,
        FieldKind::Bytes32,
        FieldKind::Int,
        FieldKind::Int,
        FieldKind::Any,
    ];
    assert(kinds@ =~= head_kinds());
    proof {
        lemma_body_spec(body@, head_kinds(), Error::HeadStructure);
    }
    let fields = cose1::read_body(&body, kinds.as_slice(), Error::HeadStructure)?;
    let domain = match fields[0] {
        Some(v) => cose1::text_of(v),
        None => return Err(Error::HeadStructure),
    };
    let chain_id = match fields[1] {
        Some(v) => cose1::bytes32_of(v),
        None => return Err(Error::HeadStructure),
    };
    let root = match fields[2] {
        Some(v) => cose1::bytes32_of(v),
        None => return Err(Error::HeadStructure),
    };
    // count is the authoritative tree size: it must be a non-negative integer
    // that fits u64, or a forged count later reshapes inclusion-proof geometry.
    let count_value = match fields[3] {
        Some(v) => cose1::int_of(v),
        None => return Err(Error::HeadStructure),
    };
    let published_at = match fields[4] {
        Some(v) => cose1::int_of(v),
        None => return Err(Error::HeadStructure),
    };
    let publisher_value = match fields[5] {
        Some(v) => v,
        None => return Err(Error::HeadStructure),
    };
    if count_value < 0 || count_value > u64::MAX as i128 {
        return Err(Error::HeadStructure);
    }
    let count = count_value as u64;

    if !text_eq(domain.as_str(), expected_domain) {
        return Err(Error::HeadDomain);
    }

    let publisher = match party_entry(publisher_value) {
        Ok(p) => p,
        Err(_) => return Err(Error::HeadStructure),
    };
    let (alg_id, kid) = cose1::protected_alg_kid(&sign1, Error::HeadStructure)?;
    let key_id = sha256(publisher.pubkey.as_slice());
    if alg_id != publisher.alg.cose_id() || !bytes_eq(kid.as_slice(), key_id.as_slice()) {
        return Err(Error::HeadStructure);
    }
    if !cose1::signature_ok(&sign1, publisher.alg, publisher.pubkey.as_slice()) {
        return Err(Error::HeadSig);
    }
    Ok(Head { chain_id, root, count, published_at, publisher })
}

/// Every element of `small` is in `big`.
pub open spec fn covers(big: Seq<Seq<u8>>, small: Seq<Seq<u8>>) -> bool {
    forall|x: Seq<u8>| #[trigger] small.contains(x) ==> big.contains(x)
}

/// What [`detect_head_fork`] returns (F1–F4): both heads verify; heads of
/// different chains or publishers are not comparable; each member list must
/// hash, in canonical order, to its signed root; equal roots or a superset
/// are honest, anything else is a fork.
pub open spec fn detect_head_fork_spec(
    head_a: Seq<u8>,
    members_a: Seq<Seq<u8>>,
    head_b: Seq<u8>,
    members_b: Seq<Seq<u8>>,
    expected_domain: Seq<char>,
) -> Result<ForkVerdict, Error> {
    match verify_head_spec(head_a, expected_domain) {
        Err(e) => Err(e),
        Ok(a) => match verify_head_spec(head_b, expected_domain) {
            Err(e) => Err(e),
            Ok(b) => if a.chain_id != b.chain_id || a.publisher.pubkey != b.publisher.pubkey {
                Ok(ForkVerdict::NoFork)
            } else if merkle_root_spec(canonical_leaves(members_a)) != a.root || merkle_root_spec(
                canonical_leaves(members_b),
            ) != b.root {
                Err(Error::HeadStructure)
            } else if a.root == b.root || covers(members_a, members_b) || covers(
                members_b,
                members_a,
            ) {
                Ok(ForkVerdict::NoFork)
            } else {
                Ok(ForkVerdict::Fork)
            },
        },
    }
}

/// Detect a head-level fork (F1–F4). The member lists are attacker-supplied
/// and pinned to the signed roots (F3) before any superset reasoning.
pub fn detect_head_fork(
    head_a: &[u8],
    members_a: &[[u8; 32]],
    head_b: &[u8],
    members_b: &[[u8; 32]],
    expected_domain: &str,
) -> (r: Result<ForkVerdict, Error>)
    ensures
        r == detect_head_fork_spec(
            head_a@,
            digests(members_a@),
            head_b@,
            digests(members_b@),
            expected_domain@,
        ),
{
    // F1 — both heads verify.
    let a = verify_head(head_a, expected_domain)?;
    let b = verify_head(head_b, expected_domain)?;

    // F2 — one party's two stories about one chain, or not comparable.
    if !eq32(&a.chain_id, &b.chain_id) || !bytes_eq(
        a.publisher.pubkey.as_slice(),
        b.publisher.pubkey.as_slice(),
    ) {
        return Ok(ForkVerdict::NoFork);
    }

    // F3 — each presented member list must hash to its signed root.
    let leaves_a = sorted_dedup(members_a);
    let leaves_b = sorted_dedup(members_b);
    let root_a = merkle_root(leaves_a.as_slice());
    let root_b = merkle_root(leaves_b.as_slice());
    if !eq32(&root_a, &a.root) || !eq32(&root_b, &b.root) {
        return Err(Error::HeadStructure);
    }

    // F4 — equal roots or an honest superset are not forks.
    let b_in_a = is_superset(leaves_a.as_slice(), leaves_b.as_slice());
    let a_in_b = is_superset(leaves_b.as_slice(), leaves_a.as_slice());
    proof {
        let (da, db) = (digests(members_a@), digests(members_b@));
        let (la, lb) = (digests(leaves_a@), digests(leaves_b@));
        assert(b_in_a == covers(da, db)) by {
            if b_in_a {
                assert forall|x: Seq<u8>| #[trigger] db.contains(x) implies da.contains(x) by {
                    assert(lb.contains(x));
                }
            }
            if covers(da, db) {
                assert forall|x: Seq<u8>| #[trigger] lb.contains(x) implies la.contains(x) by {
                    assert(db.contains(x));
                }
            }
        }
        assert(a_in_b == covers(db, da)) by {
            if a_in_b {
                assert forall|x: Seq<u8>| #[trigger] da.contains(x) implies db.contains(x) by {
                    assert(la.contains(x));
                }
            }
            if covers(db, da) {
                assert forall|x: Seq<u8>| #[trigger] la.contains(x) implies lb.contains(x) by {
                    assert(da.contains(x));
                }
            }
        }
    }
    if eq32(&a.root, &b.root) || b_in_a || a_in_b {
        Ok(ForkVerdict::NoFork)
    } else {
        Ok(ForkVerdict::Fork)
    }
}

/// Fork detection does not depend on the order in which the two heads are
/// presented: once both heads verify, swapping them gives the same answer.
pub proof fn law_head_fork_symmetric(
    head_a: Seq<u8>,
    members_a: Seq<Seq<u8>>,
    head_b: Seq<u8>,
    members_b: Seq<Seq<u8>>,
    expected_domain: Seq<char>,
)
    requires
        verify_head_spec(head_a, expected_domain) is Ok,
        verify_head_spec(head_b, expected_domain) is Ok,
    ensures
        detect_head_fork_spec(head_a, members_a, head_b, members_b, expected_domain)
            == detect_head_fork_spec(head_b, members_b, head_a, members_a, expected_domain),
{
}

/// A head never forks with itself.
pub proof fn law_head_no_self_fork(head: Seq<u8>, members: Seq<Seq<u8>>, expected_domain: Seq<char>)
    ensures
        detect_head_fork_spec(head, members, head, members, expected_domain) != Ok::<
            ForkVerdict,
            Error,
        >(ForkVerdict::Fork),
{
}

/// A fork verdict is evidence: both heads verified, they are by one
/// publisher for one chain, and each presented member list hashes to its
/// signed root while neither set contains the other.
pub proof fn law_head_fork_evidence(
    head_a: Seq<u8>,
    members_a: Seq<Seq<u8>>,
    head_b: Seq<u8>,
    members_b: Seq<Seq<u8>>,
    expected_domain: Seq<char>,
)
    requires
        detect_head_fork_spec(head_a, members_a, head_b, members_b, expected_domain) == Ok::<
            ForkVerdict,
            Error,
        >(ForkVerdict::Fork),
    ensures
        verify_head_spec(head_a, expected_domain) matches Ok(a) && verify_head_spec(
            head_b,
            expected_domain,
        ) matches Ok(b) && a.chain_id == b.chain_id && a.publisher.pubkey == b.publisher.pubkey
            && merkle_root_spec(canonical_leaves(members_a)) == a.root && merkle_root_spec(
            canonical_leaves(members_b),
        ) == b.root && a.root != b.root && !covers(members_a, members_b) && !covers(
            members_b,
            members_a,
        ),
{
}

/// Withholding is attributable: when a verified head commits to a member
/// set (its root is the root over the set's canonical leaves and its count
/// their number), every member has an inclusion proof, its RFC 6962 audit
/// path, that verifies against the head.
pub proof fn law_head_members_provable(
    head: Seq<u8>,
    expected_domain: Seq<char>,
    members: Seq<Seq<u8>>,
    x: Seq<u8>,
)
    requires
        verify_head_spec(head, expected_domain) matches Ok(h) && h.root == merkle_root_spec(
            canonical_leaves(members),
        ) && h.count == canonical_leaves(members).len(),
        members.contains(x),
    ensures
        exists|i: nat|
            #![trigger audit_path(i, canonical_leaves(members))]
            inclusion_ok(
                x,
                audit_path(i, canonical_leaves(members)),
                i,
                canonical_leaves(members).len(),
                merkle_root_spec(canonical_leaves(members)),
            ),
{
    let c = canonical_leaves(members);
    lemma_canonical_leaves(members);
    assert(c.contains(x));
    let i = choose|i: int| 0 <= i < c.len() && c[i] == x;
    law_inclusion_complete(c, i as nat);
}

/// Divergent member sets are always caught (F4): when both heads verify, are
/// by one publisher for one chain, each presented member list hashes to its
/// signed root, the roots differ, and each set holds a member the other
/// lacks, the verdict is a fork, whatever the two heads' counts.
pub proof fn law_head_divergence_is_fork(
    head_a: Seq<u8>,
    members_a: Seq<Seq<u8>>,
    head_b: Seq<u8>,
    members_b: Seq<Seq<u8>>,
    expected_domain: Seq<char>,
    only_in_a: Seq<u8>,
    only_in_b: Seq<u8>,
)
    requires
        verify_head_spec(head_a, expected_domain) matches Ok(a) && verify_head_spec(
            head_b,
            expected_domain,
        ) matches Ok(b) && a.chain_id == b.chain_id && a.publisher.pubkey == b.publisher.pubkey
            && merkle_root_spec(canonical_leaves(members_a)) == a.root && merkle_root_spec(
            canonical_leaves(members_b),
        ) == b.root && a.root != b.root,
        members_a.contains(only_in_a) && !members_b.contains(only_in_a),
        members_b.contains(only_in_b) && !members_a.contains(only_in_b),
    ensures
        detect_head_fork_spec(head_a, members_a, head_b, members_b, expected_domain) == Ok::<
            ForkVerdict,
            Error,
        >(ForkVerdict::Fork),
{
}

} // verus!
