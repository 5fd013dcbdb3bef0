//! Vectors of field elements.
use vstd::prelude::*;
use crate::field::{Scalar, all_wf};

verus! {

/// A vector of `capacity` zeros.
pub fn zero(capacity: usize) -> (r: Vec<Scalar>)
    ensures
        all_wf(r@),
        r@.len() == capacity,
        forall|i: int| 0 <= i < capacity ==> #[trigger] r@[i]@ == 0,
{
    let mut vector: Vec<Scalar> = Vec::new();
    let mut i: usize = 0;
    while i < capacity
        invariant
            i <= capacity,
            vector@.len() == i,
            all_wf(vector@),
            forall|t: int| 0 <= t < i ==> #[trigger] vector@[t]@ == 0,
        decreases capacity - i,
    {
        vector.push(Scalar::zero());
        i = i + 1;
    }
    vector
}

} // verus!
