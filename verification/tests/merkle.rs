use sha2::{Digest, Sha256};
use bcf::log::verify_log_consistency;
use bcf::merkle::{merkle_root, sorted_dedup, verify_inclusion};
use bcf::Error;

fn sha256(data: &[u8]) -> [u8; 32] {
    Sha256::digest(data).into()
}

fn node(l: &[u8; 32], r: &[u8; 32]) -> [u8; 32] {
    let mut buf = vec![0x01];
    buf.extend_from_slice(l);
    buf.extend_from_slice(r);
    sha256(&buf)
}

fn leaf(h: &[u8; 32]) -> [u8; 32] {
    let mut buf = vec![0x00];
    buf.extend_from_slice(h);
    sha256(&buf)
}

fn members(n: u8) -> Vec<[u8; 32]> {
    (0..n).map(|i| [i; 32]).collect()
}

#[test]
fn sha256_of_empty_input() {
    let expected = [
        0xe3, 0xb0, 0xc4, 0x42, 0x98, 0xfc, 0x1c, 0x14, 0x9a, 0xfb, 0xf4, 0xc8, 0x99, 0x6f, 0xb9, 0x24, 0x27, 0xae,
        0x41, 0xe4, 0x64, 0x9b, 0x93, 0x4c, 0xa4, 0x95, 0x99, 0x1b, 0x78, 0x52, 0xb8, 0x55,
    ];
    assert_eq!(sha256(b""), expected);
    assert_eq!(merkle_root(&[]), expected);
}

#[test]
fn merkle_roots_follow_rfc6962() {
    let m = members(5);
    let l: Vec<[u8; 32]> = m.iter().map(leaf).collect();
    assert_eq!(merkle_root(&m[..1]), l[0]);
    assert_eq!(merkle_root(&m[..2]), node(&l[0], &l[1]));
    assert_eq!(merkle_root(&m[..3]), node(&node(&l[0], &l[1]), &l[2]));
    assert_eq!(merkle_root(&m[..4]), node(&node(&l[0], &l[1]), &node(&l[2], &l[3])));
    assert_eq!(
        merkle_root(&m[..5]),
        node(&node(&node(&l[0], &l[1]), &node(&l[2], &l[3])), &l[4])
    );
}

#[test]
fn sorted_dedup_orders_bytewise_and_drops_repeats() {
    let a = [0x01u8; 32];
    let mut b = [0x01u8; 32];
    b[31] = 0x02;
    let c = [0xffu8; 32];
    assert_eq!(sorted_dedup(&[c, b, a, b, c]), vec![a, b, c]);
    assert_eq!(sorted_dedup(&[]), Vec::<[u8; 32]>::new());
    // The root depends only on the member set.
    assert_eq!(merkle_root(&sorted_dedup(&[c, a, b])), merkle_root(&sorted_dedup(&[b, c, a, a])));
}

#[test]
fn inclusion_proofs_verify() {
    let m = members(3);
    let l: Vec<[u8; 32]> = m.iter().map(leaf).collect();
    let root = merkle_root(&m);
    assert_eq!(verify_inclusion(&m[0], &[l[1], l[2]], 0, 3, &root), Ok(()));
    assert_eq!(verify_inclusion(&m[1], &[l[0], l[2]], 1, 3, &root), Ok(()));
    assert_eq!(verify_inclusion(&m[2], &[node(&l[0], &l[1])], 2, 3, &root), Ok(()));
    // A single-leaf tree needs no path.
    assert_eq!(verify_inclusion(&m[0], &[], 0, 1, &merkle_root(&m[..1])), Ok(()));
}

#[test]
fn bad_inclusion_proofs_are_e_head_inclusion() {
    let m = members(3);
    let l: Vec<[u8; 32]> = m.iter().map(leaf).collect();
    let root = merkle_root(&m);
    // Wrong leaf.
    assert_eq!(verify_inclusion(&m[1], &[l[1], l[2]], 0, 3, &root), Err(Error::HeadInclusion));
    // Index out of range.
    assert_eq!(verify_inclusion(&m[2], &[node(&l[0], &l[1])], 3, 3, &root), Err(Error::HeadInclusion));
    // Path too long or too short for the tree geometry.
    assert_eq!(verify_inclusion(&m[2], &[node(&l[0], &l[1]), l[0]], 2, 3, &root), Err(Error::HeadInclusion));
    assert_eq!(verify_inclusion(&m[0], &[l[1]], 0, 3, &root), Err(Error::HeadInclusion));
}

// A hostile tree size near u64::MAX terminates with a clean error.
#[test]
fn inclusion_huge_tree_size_terminates() {
    let leaf_hash = [0x22u8; 32];
    let root = [0u8; 32];
    for ts in [u64::MAX, (1u64 << 63) + 1, (1u64 << 63) + 99] {
        let r = verify_inclusion(&leaf_hash, &[], 0, ts, &root);
        assert!(r.is_err()); // an empty proof cannot match a deep tree
    }
}

#[test]
fn consistency_proofs_verify() {
    let m = members(4);
    let l: Vec<[u8; 32]> = m.iter().map(leaf).collect();
    let n01 = node(&l[0], &l[1]);
    let r1 = l[0];
    let r2 = n01;
    let r3 = node(&n01, &l[2]);
    let r4 = node(&n01, &node(&l[2], &l[3]));
    assert_eq!(verify_log_consistency(2, &r2, 3, &r3, &[l[2]]), Ok(()));
    assert_eq!(verify_log_consistency(1, &r1, 3, &r3, &[l[1], l[2]]), Ok(()));
    assert_eq!(verify_log_consistency(3, &r3, 4, &r4, &[l[2], l[3], n01]), Ok(()));
    assert_eq!(verify_log_consistency(2, &r2, 4, &r4, &[node(&l[2], &l[3])]), Ok(()));
}

#[test]
fn consistency_boundaries() {
    let r = [0x11u8; 32];
    let s = [0x12u8; 32];
    // The empty log is a prefix of anything, with an empty proof.
    assert_eq!(verify_log_consistency(0, &s, 7, &r, &[]), Ok(()));
    assert_eq!(verify_log_consistency(0, &s, 7, &r, &[r]), Err(Error::LogConsistency));
    // Equal sizes need equal roots and an empty proof.
    assert_eq!(verify_log_consistency(5, &r, 5, &r, &[]), Ok(()));
    assert_eq!(verify_log_consistency(5, &r, 5, &s, &[]), Err(Error::LogConsistency));
    assert_eq!(verify_log_consistency(5, &r, 5, &r, &[r]), Err(Error::LogConsistency));
    // A shrunk log is never consistent.
    assert_eq!(verify_log_consistency(6, &r, 5, &r, &[]), Err(Error::LogConsistency));
}

#[test]
fn bad_consistency_proofs_are_e_log_consistency() {
    let m = members(4);
    let l: Vec<[u8; 32]> = m.iter().map(leaf).collect();
    let n01 = node(&l[0], &l[1]);
    let r3 = node(&n01, &l[2]);
    let r4 = node(&n01, &node(&l[2], &l[3]));
    // Leftover proof nodes.
    assert_eq!(verify_log_consistency(3, &r3, 4, &r4, &[l[2], l[3], n01, n01]), Err(Error::LogConsistency));
    // Too few.
    assert_eq!(verify_log_consistency(3, &r3, 4, &r4, &[l[2], l[3]]), Err(Error::LogConsistency));
    // Wrong old root.
    assert_eq!(verify_log_consistency(3, &r4, 4, &r4, &[l[2], l[3], n01]), Err(Error::LogConsistency));
}

#[test]
fn error_codes_are_the_normative_strings() {
    assert_eq!(Error::Decode.code(), "E_DECODE");
    assert_eq!(Error::Noncanonical.code(), "E_NONCANONICAL");
    assert_eq!(Error::SigInvalid.code(), "E_SIG_INVALID");
    assert_eq!(Error::ChainGap.code(), "E_CHAIN_GAP");
    assert_eq!(Error::Equivocation.code(), "E_EQUIVOCATION");
    assert_eq!(Error::HeadInclusion.code(), "E_HEAD_INCLUSION");
    assert_eq!(Error::CkptWitness.code(), "E_CKPT_WITNESS");
    assert_eq!(Error::LogConsistency.code(), "E_LOG_CONSISTENCY");
    assert_eq!(Error::ReceiptSig.code(), "E_RECEIPT_SIG");
}

// Reference tree hashing over raw leaf data, written from RFC 6962 §2.1 for
// the tests below.
fn mth(d: &[[u8; 32]]) -> [u8; 32] {
    match d.len() {
        0 => sha256(b""),
        1 => leaf(&d[0]),
        n => {
            let mut k = 1;
            while k * 2 < n {
                k *= 2;
            }
            node(&mth(&d[..k]), &mth(&d[k..]))
        }
    }
}

fn split_point(n: usize) -> usize {
    let mut k = 1;
    while k * 2 < n {
        k *= 2;
    }
    k
}

fn audit_path(m: usize, d: &[[u8; 32]]) -> Vec<[u8; 32]> {
    if d.len() <= 1 {
        return Vec::new();
    }
    let k = split_point(d.len());
    let mut p = if m < k { audit_path(m, &d[..k]) } else { audit_path(m - k, &d[k..]) };
    p.push(if m < k { mth(&d[k..]) } else { mth(&d[..k]) });
    p
}

fn subproof(m: usize, d: &[[u8; 32]], b: bool) -> Vec<[u8; 32]> {
    let n = d.len();
    if m == n {
        return if b { Vec::new() } else { vec![mth(d)] };
    }
    let k = split_point(n);
    let mut p = if m <= k { subproof(m, &d[..k], b) } else { subproof(m - k, &d[k..], false) };
    p.push(if m <= k { mth(&d[k..]) } else { mth(&d[..k]) });
    p
}

#[test]
fn every_audit_path_verifies() {
    for n in 1u8..=17 {
        let d = members(n);
        let root = merkle_root(&d);
        assert_eq!(root, mth(&d));
        for m in 0..n as usize {
            let p = audit_path(m, &d);
            assert_eq!(verify_inclusion(&d[m], &p, m as u64, n as u64, &root), Ok(()), "leaf {m} of {n}");
            // The same path does not prove the leaf at another index.
            if n > 1 {
                let other = (m + 1) % n as usize;
                assert_eq!(verify_inclusion(&d[m], &p, other as u64, n as u64, &root), Err(Error::HeadInclusion));
            }
        }
    }
}

#[test]
fn every_consistency_proof_verifies() {
    for n in 2u8..=17 {
        let d = members(n);
        let new_root = mth(&d);
        for m in 1..n as usize {
            let p = subproof(m, &d, true);
            let old_root = mth(&d[..m]);
            assert_eq!(verify_log_consistency(m as u64, &old_root, n as u64, &new_root, &p), Ok(()), "{m} -> {n}");
            // A different old root is refused.
            assert_eq!(
                verify_log_consistency(m as u64, &new_root, n as u64, &new_root, &p),
                if old_root == new_root { Ok(()) } else { Err(Error::LogConsistency) }
            );
        }
    }
}
