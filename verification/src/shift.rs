//! Element-wise right shift over a buffer of machine words.

use vstd::prelude::*;

verus! {

/// Shifts every element of `data` right by `shft` bits, in place.
///
/// The shift amount must be below the word width, as a wider shift has no
/// defined result for `u64`.
pub fn shift_all(data: &mut Vec<u64>, shft: u64)
    requires
        shft < 64,
    ensures
        final(data)@.len() == old(data)@.len(),
        forall|i: int| 0 <= i < old(data)@.len() ==> final(data)@[i] == old(data)@[i] >> shft,
{
    let n = data.len();
    let mut j: usize = 0;
    while j < n
        invariant
            shft < 64,
            j <= n,
            n == data@.len(),
            data@.len() == old(data)@.len(),
            forall|i: int| 0 <= i < j ==> data@[i] == old(data)@[i] >> shft,
            forall|i: int| j <= i < n ==> data@[i] == old(data)@[i],
        decreases n - j,
    {
        let shifted = data[j] >> shft;
        data.set(j, shifted);
        j += 1;
    }
}

} // verus!
