//! The shapes that the signal kernels accept: the length of a signal for
//! the fast Fourier transform, and the length of a convolution.

use vstd::prelude::*;
use crate::error::KernelError;

verus! {

/// Whether `n` is a power of two.
pub open spec fn is_power_of_two(n: nat) -> bool
    decreases n,
{
    n == 1 || (n > 1 && n % 2 == 0 && is_power_of_two(n / 2))
}

/// A number above zero is a power of two exactly when it has no bit in
/// common with the number before it.
pub proof fn lemma_power_of_two_bits(n: u64)
    requires
        n > 0,
    ensures
        (n & ((n - 1) as u64)) == 0 <==> is_power_of_two(n as nat),
    decreases n,
{
    if n == 1 {
        assert(1u64 & 0u64 == 0) by (bit_vector);
    } else {
        let half = n / 2;
        assert(n > 1 ==> (n & ((n - 1) as u64) == 0 ==> n % 2 == 0)) by (bit_vector);
        assert(n > 1 && n % 2 == 0 ==> ((n & ((n - 1) as u64) == 0) <==> ((n / 2) & ((n / 2 - 1) as u64)
            == 0))) by (bit_vector);
        lemma_power_of_two_bits(half);
    }
}

/// Accepts the length of a signal for the fast Fourier transform: a power
/// of two. A signal of one element is its own transform.
///
/// Fails with `NotPowerOfTwo` for every other length, zero among them.
pub fn check_signal_length(n: usize) -> (result: Result<(), KernelError>)
    ensures
        match result {
            Ok(_) => is_power_of_two(n as nat),
            Err(e) => !is_power_of_two(n as nat) && e == KernelError::NotPowerOfTwo,
        },
{
    if n == 0 {
        return Err(KernelError::NotPowerOfTwo);
    }
    let wide = n as u64;
    proof {
        lemma_power_of_two_bits(wide);
    }
    if wide & (wide - 1) != 0 {
        return Err(KernelError::NotPowerOfTwo);
    }
    Ok(())
}

/// The length of the full convolution of two signals: one less than the
/// sum of their lengths.
///
/// `n1` and `n2` are the lengths that the caller states; fails with
/// `ShapeMismatch` where a buffer has another length, with `EmptyData`
/// where both signals are empty, and with `SizeOverflow` where the length
/// does not fit.
pub fn convolution_length(len1: usize, len2: usize, n1: usize, n2: usize) -> (result: Result<
    usize,
    KernelError,
>)
    ensures
        match result {
            Ok(n) => n1 == len1 && n2 == len2 && n1 + n2 >= 1 && n == n1 + n2 - 1,
            Err(e) => if n1 != len1 || n2 != len2 {
                e == KernelError::ShapeMismatch
            } else if n1 + n2 == 0 {
                e == KernelError::EmptyData
            } else {
                n1 + n2 - 1 > usize::MAX && e == KernelError::SizeOverflow
            },
        },
{
    if n1 != len1 || n2 != len2 {
        return Err(KernelError::ShapeMismatch);
    }
    if n1 == 0 {
        if n2 == 0 {
            return Err(KernelError::EmptyData);
        }
        return Ok(n2 - 1);
    }
    match (n1 - 1).checked_add(n2) {
        Some(n) => Ok(n),
        None => Err(KernelError::SizeOverflow),
    }
}

/// Splits a signal into the elements at even places and those at odd
/// places, each in their order: the two halves that a transform by
/// decimation in time works on. An element left over at the end of a
/// signal of odd length goes to neither.
pub fn decimate<T: Copy>(signal: &Vec<T>) -> (halves: (Vec<T>, Vec<T>))
    ensures
        halves.0.len() == signal.len() / 2,
        halves.1.len() == signal.len() / 2,
        forall|i: int| 0 <= i < signal.len() / 2 ==> halves.0[i] == signal[2 * i],
        forall|i: int| 0 <= i < signal.len() / 2 ==> halves.1[i] == signal[2 * i + 1],
{
    let half = signal.len() / 2;
    let mut even: Vec<T> = Vec::with_capacity(half);
    let mut odd: Vec<T> = Vec::with_capacity(half);
    let mut i: usize = 0;
    while i < half
        invariant
            half == signal.len() / 2,
            i <= half,
            even.len() == i,
            odd.len() == i,
            forall|k: int| 0 <= k < i ==> even[k] == signal[2 * k],
            forall|k: int| 0 <= k < i ==> odd[k] == signal[2 * k + 1],
        decreases half - i,
    {
        even.push(signal[i * 2]);
        odd.push(signal[i * 2 + 1]);
        i = i + 1;
    }
    (even, odd)
}

/// Lays two buffers of equal length into one, an element of the first and
/// then the element of the second at the same place: the real and the
/// imaginary parts of a transform, as pairs.
pub fn interleave<T: Copy>(first: &Vec<T>, second: &Vec<T>) -> (pairs: Vec<T>)
    requires
        first.len() == second.len(),
        first.len() + second.len() <= usize::MAX,
    ensures
        pairs.len() == 2 * first.len(),
        forall|i: int| 0 <= i < first.len() ==> pairs[2 * i] == first[i],
        forall|i: int| 0 <= i < first.len() ==> pairs[2 * i + 1] == second[i],
{
    let n = first.len();
    let mut pairs: Vec<T> = Vec::with_capacity(n + n);
    let mut i: usize = 0;
    while i < n
        invariant
            n == first.len(),
            n == second.len(),
            i <= n,
            pairs.len() == 2 * i,
            forall|k: int| 0 <= k < i ==> pairs[2 * k] == first[k],
            forall|k: int| 0 <= k < i ==> pairs[2 * k + 1] == second[k],
        decreases n - i,
    {
        pairs.push(first[i]);
        pairs.push(second[i]);
        i = i + 1;
    }
    pairs
}

} // verus!
