use vstd::prelude::*;

verus! {

/// The id handed out after `n`: the next one, wrapping around at the top.
pub open spec fn next_id(n: usize) -> usize {
    if n == usize::MAX { 0 } else { (n + 1) as usize }
}

/// Hands out the id `*counter` and advances the counter, wrapping around
/// at the top.
pub fn fresh(counter: &mut usize) -> (r: usize)
    ensures
        r == *old(counter),
        *final(counter) == next_id(*old(counter)),
{
    let r = *counter;
    *counter = if r == usize::MAX { 0 } else { r + 1 };
    r
}

} // verus!
