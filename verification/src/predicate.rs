//! Predicate-identity syntax: only the `src:`, `unison:` and `oci:` schemes
//! are valid, each followed by non-empty content, within a length cap.
use crate::bytes::bytes_eq;
use vstd::prelude::*;
use vstd::utf8::encode_utf8;

verus! {

/// Maximum length of a single predicate entry, in bytes.
pub const MAX_ENTRY_LEN: usize = 256;

/// The accepted scheme prefixes, as bytes.
pub open spec fn schemes() -> Seq<Seq<u8>> {
    seq![
        seq![0x73u8, 0x72, 0x63, 0x3a],  // "src:"
        seq![0x75u8, 0x6e, 0x69, 0x73, 0x6f, 0x6e, 0x3a],  // "unison:"
        seq![0x6fu8, 0x63, 0x69, 0x3a],  // "oci:"
    ]
}

/// The UTF-8 bytes `u` form a valid predicate entry.
pub open spec fn valid_entry_bytes(u: Seq<u8>) -> bool {
    u.len() <= MAX_ENTRY_LEN && exists|i: int|
        0 <= i < schemes().len() && u.len() > #[trigger] schemes()[i].len() && u.take(
            schemes()[i].len() as int,
        ) == schemes()[i]
}

/// The text `t` is a valid predicate entry.
pub open spec fn valid_entry_spec(t: Seq<char>) -> bool {
    valid_entry_bytes(encode_utf8(t))
}

fn has_scheme(u: &[u8], scheme: &[u8]) -> (r: bool)
    ensures
        r == (u@.len() > scheme@.len() && u@.take(scheme@.len() as int) == scheme@),
{
    if u.len() <= scheme.len() {
        return false;
    }
    let head = vstd::slice::slice_subrange(u, 0, scheme.len());
    bytes_eq(head, scheme)
}

/// True if `entry` is a syntactically valid predicate URI for the profile:
/// a known scheme prefix followed by non-empty content, within the length cap.
/// A bare scheme (`"src:"`) asserts the identity of nothing and is rejected.
pub fn is_valid_entry(entry: &str) -> (r: bool)
    ensures
        r == valid_entry_spec(entry@),
{
    let u = entry.as_bytes();
    if u.len() > MAX_ENTRY_LEN {
        return false;
    }
    let src: [u8; 4] = [0x73, 0x72, 0x63, 0x3a];
    let unison: [u8; 7] = [0x75, 0x6e, 0x69, 0x73, 0x6f, 0x6e, 0x3a];
    let oci: [u8; 4] = [0x6f, 0x63, 0x69, 0x3a];
    assert(src@ =~= schemes()[0]);
    assert(unison@ =~= schemes()[1]);
    assert(oci@ =~= schemes()[2]);
    let r = has_scheme(u, src.as_slice()) || has_scheme(u, unison.as_slice()) || has_scheme(
        u,
        oci.as_slice(),
    );
    proof {
        if !r {
            assert forall|i: int| 0 <= i < schemes().len() implies !(u@.len()
                > #[trigger] schemes()[i].len() && u@.take(schemes()[i].len() as int)
                == schemes()[i]) by {
                if i == 0 {
                } else if i == 1 {
                } else {
                }
            }
        }
    }
    r
}

} // verus!
