//! Selection of the elements of a buffer that a predicate has flagged.

use vstd::prelude::*;

verus! {

/// The elements of `values` whose flag is set, in their order.
pub open spec fn flagged<T>(values: Seq<T>, flags: Seq<bool>) -> Seq<T>
    decreases values.len(),
{
    if values.len() == 0 {
        Seq::empty()
    } else if flags[values.len() - 1] {
        flagged(values.drop_last(), flags).push(values.last())
    } else {
        flagged(values.drop_last(), flags)
    }
}

/// A new buffer with the elements of `values` whose flag is set, in their
/// order.
pub fn keep_flagged<T: Copy>(values: &Vec<T>, flags: &Vec<bool>) -> (kept: Vec<T>)
    requires
        flags.len() == values.len(),
    ensures
        kept@ == flagged(values@, flags@),
{
    let n = values.len();
    let mut kept: Vec<T> = Vec::new();
    let mut i: usize = 0;
    while i < n
        invariant
            n == values.len(),
            n == flags.len(),
            i <= n,
            kept@ == flagged(values@.take(i as int), flags@),
        decreases n - i,
    {
        assert(values@.take(i + 1).drop_last() =~= values@.take(i as int));
        if flags[i] {
            kept.push(values[i]);
        }
        i = i + 1;
    }
    assert(values@.take(n as int) =~= values@);
    kept
}

} // verus!
