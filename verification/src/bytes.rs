//! Paths as byte strings.

use vstd::prelude::*;

verus! {

/// Whether two paths are the same bytes.
pub fn same_bytes(a: &Vec<u8>, b: &Vec<u8>) -> (same: bool)
    ensures
        same == (a@ == b@),
{
    let same = a == b;
    proof {
        if same {
            assert(a@ =~= b@);
        }
    }
    same
}

/// A fresh copy of a path.
pub fn copy_bytes(a: &Vec<u8>) -> (copy: Vec<u8>)
    ensures
        copy@ == a@,
{
    let copy = a.clone();
    assert(copy@ =~= a@);
    copy
}

} // verus!
