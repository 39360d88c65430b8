use vstd::prelude::*;

pub mod avltree;

verus! {

/// Sum of two machine integers; the inputs must not overflow.
pub fn add(left: usize, right: usize) -> (r: usize)
    requires
        left + right <= usize::MAX,
    ensures
        r == left + right,
{
    left + right
}

} // verus!
