//! The plain values that the library works on: digests, keys, signatures and
//! account identities, and the comparison of byte strings.

use vstd::prelude::*;

verus! {

/// A 256-bit digest.
pub type H256 = [u8; 32];

/// The public key of an archive.
pub type Public = [u8; 32];

/// A signature made with the key of an archive.
pub type Signature = [u8; 64];

/// The identity of a caller, as the host's account registry hands it out.
pub type AccountId = u64;

/// Whether two byte strings are the same.
pub fn bytes_eq(left: &[u8], right: &[u8]) -> (same: bool)
    ensures
        same == (left@ == right@),
{
    if left.len() != right.len() {
        return false;
    }
    let mut at: usize = 0;
    while at < left.len()
        invariant
            left@.len() == right@.len(),
            at <= left@.len(),
            forall|i: int| 0 <= i < at ==> left@[i] == right@[i],
        decreases left@.len() - at,
    {
        if left[at] != right[at] {
            return false;
        }
        at = at + 1;
    }
    assert(left@ =~= right@);
    true
}

/// Whether two digests or keys are the same.
pub fn same_32(left: &[u8; 32], right: &[u8; 32]) -> (same: bool)
    ensures
        same == (*left == *right),
{
    let same: bool = bytes_eq(left.as_slice(), right.as_slice());
    proof {
        if same {
            assert(*left =~= *right);
        }
    }
    same
}

} // verus!
