//! Splitting of a buffer into batches of bounded size.
//!
//! A kernel that streams over a long buffer works through it one batch at
//! a time, so that its scratch memory stays small. The batches follow one
//! another without gap or overlap; what a kernel computes does not depend
//! on the batch size.

use vstd::prelude::*;

verus! {

/// Batch size of the kernels that call back into the host for each element.
pub const CALLBACK_BATCH_SIZE: usize = 1024;

/// Batch size of the kernels that reduce a buffer to a number.
pub const REDUCTION_BATCH_SIZE: usize = 4096;

/// Number of elements that are copied across the host boundary at a time.
pub const COPY_CHUNK_SIZE: usize = 4096;

/// Number of elements that one vector instruction works on.
pub const LANES: usize = 4;

/// A run of consecutive elements of a buffer.
#[derive(Clone, Copy, Debug, PartialEq, Eq)]
pub struct Batch {
    /// Index of the first element.
    pub offset: usize,
    /// Number of elements.
    pub length: usize,
}

/// Number of batches that a buffer of `length` elements is split into.
pub open spec fn batch_count(length: nat, batch_size: nat) -> nat {
    ((length + batch_size - 1) / batch_size as int) as nat
}

/// Where batch `k` starts.
pub open spec fn batch_offset(batch_size: nat, k: nat) -> nat {
    k * batch_size
}

/// How many elements batch `k` has: a full batch, or what is left of the
/// buffer.
pub open spec fn batch_length(length: nat, batch_size: nat, k: nat) -> nat {
    if length - k * batch_size < batch_size {
        (length - k * batch_size) as nat
    } else {
        batch_size
    }
}

/// `plan` is the split of a buffer of `length` elements into batches of
/// `batch_size` elements, the last one shorter where the length asks for it.
pub open spec fn is_batch_plan(plan: Seq<Batch>, length: nat, batch_size: nat) -> bool {
    &&& plan.len() == batch_count(length, batch_size)
    &&& forall|k: int|
        0 <= k < plan.len() ==> (#[trigger] plan[k]).offset == batch_offset(batch_size, k as nat)
            && plan[k].length == batch_length(length, batch_size, k as nat)
}

/// The batch before the last one starts inside the buffer, and the last one
/// ends at its end.
pub proof fn lemma_batch_count(length: nat, batch_size: nat)
    requires
        batch_size > 0,
    ensures
        batch_count(length, batch_size) * batch_size >= length,
        (batch_count(length, batch_size) - 1) * batch_size < length || length == 0,
        (batch_count(length, batch_size) - 1) * batch_size + batch_size == batch_count(
            length,
            batch_size,
        ) * batch_size,
        length == 0 <==> batch_count(length, batch_size) == 0,
{
    let n = batch_count(length, batch_size) as int;
    let b = batch_size as int;
    let l = length as int;
    assert((l + b - 1) / b >= 0) by (nonlinear_arith)
        requires
            l >= 0,
            b > 0,
    ;
    assert(n == (l + b - 1) / b);
    assert(n * b <= l + b - 1 && l + b - 1 < n * b + b) by (nonlinear_arith)
        requires
            n == (l + b - 1) / b,
            b > 0,
            l >= 0,
    ;
    assert((n - 1) * b == n * b - b) by (nonlinear_arith);
    assert(l == 0 <==> n == 0) by (nonlinear_arith)
        requires
            n * b <= l + b - 1,
            l + b - 1 < n * b + b,
            b > 0,
            l >= 0,
            n >= 0,
    ;
}

/// Batch `k` of `n` starts no later than the last one, and a whole batch
/// after it where it is not the last.
proof fn lemma_batch_offsets(k: int, n: int, b: int)
    requires
        0 <= k < n,
        b > 0,
    ensures
        k * b <= (n - 1) * b,
        k < n - 1 ==> k * b + b <= (n - 1) * b,
        (k + 1) * b == k * b + b,
{
    assert(k * b <= (n - 1) * b && (k < n - 1 ==> k * b + b <= (n - 1) * b) && (k + 1) * b == k * b
        + b) by (nonlinear_arith)
        requires
            0 <= k < n,
            b > 0,
    ;
}

/// The batches of a plan cover the buffer without gap or overlap: the
/// first starts at the first element, each one starts where the one before
/// it ends, the last ends at the end of the buffer, and none is empty or
/// longer than the batch size.
pub proof fn batches_cover_buffer(plan: Seq<Batch>, length: nat, batch_size: nat)
    requires
        batch_size > 0,
        is_batch_plan(plan, length, batch_size),
    ensures
        plan.len() > 0 ==> plan[0].offset == 0,
        forall|k: int|
            0 <= k < plan.len() - 1 ==> (#[trigger] plan[k]).offset + plan[k].length == plan[k
                + 1].offset,
        plan.len() > 0 ==> plan[plan.len() - 1].offset + plan[plan.len() - 1].length == length,
        plan.len() == 0 ==> length == 0,
        forall|k: int| 0 <= k < plan.len() ==> 1 <= (#[trigger] plan[k]).length <= batch_size,
{
    lemma_batch_count(length, batch_size);
    let n = plan.len() as int;
    let b = batch_size as int;
    assert forall|k: int| 0 <= k < plan.len() - 1 implies (#[trigger] plan[k]).offset
        + plan[k].length == plan[k + 1].offset by {
        lemma_batch_offsets(k, n, b);
        assert(plan[k + 1].offset == batch_offset(batch_size, (k + 1) as nat));
    }
    assert forall|k: int| 0 <= k < plan.len() implies 1 <= (#[trigger] plan[k]).length
        <= batch_size by {
        lemma_batch_offsets(k, n, b);
    }
    if n > 0 {
        assert(plan[n - 1].offset == batch_offset(batch_size, (n - 1) as nat));
    }
}

/// Splits a buffer of `length` elements into batches of `batch_size`
/// elements; the last batch holds what is left.
pub fn batch_plan(length: usize, batch_size: usize) -> (plan: Vec<Batch>)
    requires
        batch_size > 0,
    ensures
        is_batch_plan(plan@, length as nat, batch_size as nat),
{
    let mut plan: Vec<Batch> = Vec::new();
    let mut start: usize = 0;
    proof {
        lemma_batch_count(length as nat, batch_size as nat);
        assert(0 * batch_size == 0);
    }
    while start < length
        invariant
            batch_size > 0,
            start <= length,
            start == length || start == plan.len() * batch_size,
            start == length ==> plan.len() == batch_count(length as nat, batch_size as nat),
            start < length ==> plan.len() < batch_count(length as nat, batch_size as nat),
            forall|k: int|
                0 <= k < plan.len() ==> (#[trigger] plan[k]).offset == batch_offset(
                    batch_size as nat,
                    k as nat,
                ) && plan[k].length == batch_length(length as nat, batch_size as nat, k as nat),
        decreases length - start,
    {
        let left = length - start;
        let size = if left < batch_size {
            left
        } else {
            batch_size
        };
        proof {
            lemma_batch_count(length as nat, batch_size as nat);
            let n = batch_count(length as nat, batch_size as nat) as int;
            let k = plan.len() as int;
            let b = batch_size as int;
            assert((k + 1) * b == k * b + b) by (nonlinear_arith);
            if left <= batch_size {
                // this is the last batch
                assert(k + 1 == n) by (nonlinear_arith)
                    requires
                        k < n,
                        n * b >= length,
                        (n - 1) * b < length,
                        length <= k * b + b,
                        b > 0,
                ;
            } else {
                assert(k + 1 < n) by (nonlinear_arith)
                    requires
                        k < n,
                        n * b >= length,
                        length > k * b + b,
                        b > 0,
                ;
            }
        }
        plan.push(Batch { offset: start, length: size });
        start = start + size;
    }
    proof {
        lemma_batch_count(length as nat, batch_size as nat);
    }
    plan
}

/// The number of leading elements of a batch that fill whole vectors of
/// `LANES` elements; the rest is worked on one by one.
pub fn vector_length(length: usize) -> (whole: usize)
    ensures
        whole <= length,
        whole % LANES == 0,
        length - whole < LANES,
        whole == length - length % LANES,
{
    length - length % LANES
}

} // verus!
