//! Small helpers: byte-slice equality and the allocation-sizing heuristic
//! used when several entries are appended at once.

use vstd::prelude::*;
use vstd::slice::slice_index_get;
use crate::sys::byte_repr::NativeString;

verus! {

/// An approximate number of bytes one appended entry adds, separator
/// included.
const LEN_HEURISTIC: usize = 15;

/// Asks `path` to make room for about `count` more entries of typical
/// length. The estimate caps itself, so an adversarial size hint cannot
/// force a pathological over-reservation. The text is unchanged.
pub fn reserve_heuristic(path: &mut NativeString, count: usize)
    ensures
        final(path)@ == old(path)@,
{
    let est = match count.checked_mul(LEN_HEURISTIC) {
        Some(v) => {
            if v >= (isize::MAX / 2) as usize {
                // The heuristic is wildly off: reserve only one byte per
                // promised entry.
                count
            } else {
                v
            }
        },
        None => count,
    };
    path.reserve(est);
}

/// Whether two byte strings hold the same bytes.
pub fn bytes_eq(a: &[u8], b: &[u8]) -> (r: bool)
    ensures
        r == (a@ == b@),
{
    if a.len() != b.len() {
        return false;
    }
    let mut i: usize = 0;
    while i < a.len()
        invariant
            i <= a@.len(),
            a@.len() == b@.len(),
            forall|k: int| 0 <= k < i ==> a@[k] == b@[k],
        decreases a@.len() - i,
    {
        if *slice_index_get(a, i) != *slice_index_get(b, i) {
            return false;
        }
        i = i + 1;
    }
    proof {
        assert(a@ =~= b@);
    }
    true
}

} // verus!
