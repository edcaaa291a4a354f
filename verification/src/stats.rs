//! The integer side of the statistics kernels: which order statistics
//! make the median, how many windows a moving average has, and from where
//! each gap of a series is filled.

use vstd::prelude::*;
use crate::error::KernelError;

verus! {

/// The places, in the sorted buffer, of the values whose mean is the
/// median: the middle one twice for an odd length, the two middle ones for
/// an even length, none for an empty buffer. They are the places that
/// bracket the rank half way from the first place to the last.
pub fn median_positions(length: usize) -> (positions: Option<(usize, usize)>)
    ensures
        match positions {
            None => length == 0,
            Some((low, high)) => length > 0 && high == length / 2 && low == (length - 1) / 2,
        },
{
    if length == 0 {
        None
    } else if length % 2 == 0 {
        Some((length / 2 - 1, length / 2))
    } else {
        Some((length / 2, length / 2))
    }
}

/// The number of windows of `window_size` elements in a buffer of `length`
/// elements.
///
/// Fails with `WindowSizeZero` for a window of no elements, and with
/// `WindowTooLarge` for a window longer than the buffer.
pub fn window_count(length: usize, window_size: usize) -> (result: Result<usize, KernelError>)
    ensures
        match result {
            Ok(count) => 1 <= window_size <= length && count == length - window_size + 1,
            Err(e) => if window_size == 0 {
                e == KernelError::WindowSizeZero
            } else {
                window_size > length && e == KernelError::WindowTooLarge
            },
        },
{
    if window_size == 0 {
        return Err(KernelError::WindowSizeZero);
    }
    if window_size > length {
        return Err(KernelError::WindowTooLarge);
    }
    Ok(length - window_size + 1)
}

/// The sum of the weights 1 to `window_size` of a weighted moving average.
pub fn weight_total(window_size: usize) -> (total: u128)
    ensures
        total == window_size * (window_size + 1) / 2,
{
    let w = window_size as u128;
    assert(w * (w + 1) <= 0xffff_ffff_ffff_ffff * 0x1_0000_0000_0000_0000) by (nonlinear_arith)
        requires
            0 <= w <= 0xffff_ffff_ffff_ffff,
    ;
    (w * (w + 1)) / 2
}

/// From where an element of a series with gaps gets its value.
#[derive(Clone, Copy, Debug, PartialEq, Eq)]
pub enum Fill {
    /// The element keeps its own value.
    Keep,
    /// The element takes the value of the element at `from`.
    Copy { from: usize },
    /// The element lies on the line from the value at `left` to the value
    /// at `right`.
    Between { left: usize, right: usize },
}

/// The place of the last element with a value before place `i`.
pub open spec fn valid_before(valid: Seq<bool>, i: int) -> Option<int>
    decreases i,
{
    if i <= 0 {
        None
    } else if valid[i - 1] {
        Some(i - 1)
    } else {
        valid_before(valid, i - 1)
    }
}

/// The place of the first element with a value after place `i`.
pub open spec fn valid_after(valid: Seq<bool>, i: int) -> Option<int>
    decreases valid.len() - i,
{
    if i + 1 >= valid.len() {
        None
    } else if valid[i + 1] {
        Some(i + 1)
    } else {
        valid_after(valid, i + 1)
    }
}

/// From where the element at place `i` gets its value: an element with a
/// value keeps it; a gap between two values lies on the line between
/// them; a gap at either end takes the nearest value; and where no element
/// has a value, each stays as it is.
pub open spec fn fill_at(valid: Seq<bool>, i: int) -> Fill {
    if valid[i] {
        Fill::Keep
    } else {
        match (valid_before(valid, i), valid_after(valid, i)) {
            (Some(left), Some(right)) => Fill::Between {
                left: left as usize,
                right: right as usize,
            },
            (Some(left), None) => Fill::Copy { from: left as usize },
            (None, Some(right)) => Fill::Copy { from: right as usize },
            (None, None) => Fill::Keep,
        }
    }
}

/// The places that `valid_before` and `valid_after` give are places of
/// elements with a value, on their side of `i`, with only gaps between.
pub proof fn lemma_valid_neighbours(valid: Seq<bool>, i: int)
    requires
        0 <= i < valid.len(),
    ensures
        valid_before(valid, i) matches Some(left) ==> 0 <= left < i && valid[left],
        valid_after(valid, i) matches Some(right) ==> i < right < valid.len() && valid[right],
{
    lemma_valid_before(valid, i);
    lemma_valid_after(valid, i);
}

proof fn lemma_valid_before(valid: Seq<bool>, i: int)
    requires
        i <= valid.len(),
    ensures
        valid_before(valid, i) matches Some(left) ==> 0 <= left < i && valid[left],
    decreases i,
{
    if i > 0 && !valid[i - 1] {
        lemma_valid_before(valid, i - 1);
    }
}

proof fn lemma_valid_after(valid: Seq<bool>, i: int)
    requires
        -1 <= i,
    ensures
        valid_after(valid, i) matches Some(right) ==> i < right < valid.len() && valid[right],
    decreases valid.len() - i,
{
    if i + 1 < valid.len() && !valid[i + 1] {
        lemma_valid_after(valid, i + 1);
    }
}

/// Plans the filling of the gaps of a series: `valid` tells for each
/// element whether it has a value, and the plan tells for each element from
/// where it gets its value.
pub fn interpolation_plan(valid: &Vec<bool>) -> (plan: Vec<Fill>)
    ensures
        plan.len() == valid.len(),
        forall|i: int| 0 <= i < plan.len() ==> plan[i] == fill_at(valid@, i),
{
    let n = valid.len();
    // `next[i]` is the place of the first value after `i`, or `n` for none.
    let mut next: Vec<usize> = vec![n; n];
    let mut i: usize = n;
    while i > 0
        invariant
            n == valid.len(),
            next.len() == n,
            i <= n,
            forall|k: int|
                i <= k < n ==> match valid_after(valid@, k) {
                    Some(right) => #[trigger] next[k] == right,
                    None => next[k] == n,
                },
        decreases i,
    {
        i = i - 1;
        let found = if i + 1 >= n {
            n
        } else if valid[i + 1] {
            i + 1
        } else {
            next[i + 1]
        };
        next.set(i, found);
    }
    let mut plan: Vec<Fill> = Vec::with_capacity(n);
    let mut last: Option<usize> = None;
    let mut i: usize = 0;
    while i < n
        invariant
            n == valid.len(),
            next.len() == n,
            i <= n,
            plan.len() == i,
            match valid_before(valid@, i as int) {
                Some(left) => last == Some(left as usize),
                None => last is None,
            },
            forall|k: int|
                0 <= k < n ==> match valid_after(valid@, k) {
                    Some(right) => #[trigger] next[k] == right,
                    None => next[k] == n,
                },
            forall|k: int| 0 <= k < i ==> plan[k] == fill_at(valid@, k),
        decreases n - i,
    {
        proof {
            lemma_valid_neighbours(valid@, i as int);
        }
        let right = next[i];
        let fill = if valid[i] {
            Fill::Keep
        } else {
            match last {
                Some(left) => if right < n {
                    Fill::Between { left, right }
                } else {
                    Fill::Copy { from: left }
                },
                None => if right < n {
                    Fill::Copy { from: right }
                } else {
                    Fill::Keep
                },
            }
        };
        plan.push(fill);
        if valid[i] {
            last = Some(i);
        }
        i = i + 1;
    }
    plan
}

} // verus!
