//! Index arithmetic for a 32-way trie with 5-bit digits per level, and the
//! copying operations on the flat buffers that the trie's owner keeps.

use vstd::prelude::*;
use crate::arena::{new_arena, scratch_slice};
use crate::error::KernelError;

verus! {

/// Number of index bits consumed at each level of the trie.
pub const BITS_PER_LEVEL: usize = 5;

/// Number of children of a full trie node.
pub const BRANCH_SIZE: usize = 32;

/// Mask selecting one digit of an index.
pub const MASK: usize = 31;

/// The levels from which on every digit of a 64-bit index is zero.
pub const EMPTY_LEVEL: usize = 13;

/// The digit of `index` at `level` in base 32; level 0 holds the least
/// significant digit.
pub open spec fn digit_at(index: nat, level: nat) -> nat
    decreases level,
{
    if level == 0 {
        index % 32
    } else {
        digit_at(index / 32, (level - 1) as nat)
    }
}

/// Whether bit `position` of `bitmap` is set.
pub open spec fn bit_is_set(bitmap: u32, position: nat) -> bool {
    (bitmap >> (position as u32)) & 1u32 == 1u32
}

/// Number of set bits of `bitmap` below `position`.
pub open spec fn bits_below(bitmap: u32, position: nat) -> nat
    decreases position,
{
    if position == 0 {
        0
    } else {
        bits_below(bitmap, (position - 1) as nat) + if bit_is_set(bitmap, (position - 1) as nat) {
            1nat
        } else {
            0nat
        }
    }
}

/// `u32::count_ones` of the standard library: the number of ones in the
/// binary representation of the value.
pub assume_specification[ u32::count_ones ](value: u32) -> (ones: u32)
    ensures
        ones == bits_below(value, 32),
;

/// The digits of zero are zero.
pub proof fn lemma_digit_of_zero(level: nat)
    ensures
        digit_at(0, level) == 0,
    decreases level,
{
    if level > 0 {
        lemma_digit_of_zero((level - 1) as nat);
    }
}

/// From level 13 on, the digits of a 64-bit index are zero.
pub proof fn lemma_digit_beyond_width(index: u64, level: nat)
    requires
        level >= 13,
    ensures
        digit_at(index as nat, level) == 0,
{
    let i0 = index as nat;
    let i1 = i0 / 32;
    let i2 = i1 / 32;
    let i3 = i2 / 32;
    let i4 = i3 / 32;
    let i5 = i4 / 32;
    let i6 = i5 / 32;
    let i7 = i6 / 32;
    let i8 = i7 / 32;
    let i9 = i8 / 32;
    let i10 = i9 / 32;
    let i11 = i10 / 32;
    let i12 = i11 / 32;
    let i13 = i12 / 32;
    assert(i13 == 0);
    reveal_with_fuel(digit_at, 14);
    assert(digit_at(i0, level) == digit_at(i13, (level - 13) as nat));
    lemma_digit_of_zero((level - 13) as nat);
}

/// Below level 13, shifting a 64-bit index right by five bits for each
/// level and masking gives its digit at that level.
pub proof fn lemma_shift_is_digit_at(index: u64, level: nat)
    requires
        level < 13,
    ensures
        (index >> ((5 * level) as u64)) & 31 == digit_at(index as nat, level),
    decreases level,
{
    if level == 0 {
        assert((index >> 0u64) & 31 == index % 32) by (bit_vector);
    } else {
        let shift = (5 * (level - 1)) as u64;
        let above = (5 * level) as u64;
        let rest = index >> 5u64;
        assert(index >> above == (index >> 5u64) >> shift) by (bit_vector)
            requires
                above == shift + 5,
                shift <= 55,
        ;
        assert(index >> 5u64 == index / 32) by (bit_vector);
        lemma_shift_is_digit_at(rest, (level - 1) as nat);
    }
}

/// The path to the element at `index` in a trie of the given height: one
/// digit for each level, that of the highest level first.
pub fn hamt_find_path(index: usize, height: usize, _size: usize) -> (path: Vec<i32>)
    requires
        height < usize::MAX,
    ensures
        path.len() == height + 1,
        forall|i: int|
            0 <= i <= height ==> path[i] == digit_at(index as nat, (height - i) as nat),
{
    let bump = new_arena();
    let path = scratch_slice(&bump, height + 1, 0);
    let wide = index as u64;
    let mut i: usize = 0;
    while i <= height
        invariant
            height < usize::MAX,
            wide == index,
            i <= height + 1,
            path.len() == height + 1,
            forall|k: int| 0 <= k < i ==> path[k] == digit_at(index as nat, (height - k) as nat),
        decreases height + 1 - i,
    {
        let level = height - i;
        let position: u64 = if level >= EMPTY_LEVEL {
            proof {
                lemma_digit_beyond_width(wide, level as nat);
            }
            0
        } else {
            let shift = (level * BITS_PER_LEVEL) as u64;
            proof {
                lemma_shift_is_digit_at(wide, level as nat);
                assert((wide >> shift) & 31 < 32) by (bit_vector);
            }
            (wide >> shift) & (MASK as u64)
        };
        path[i] = position as i32;
        i = i + 1;
    }
    let mut result: Vec<i32> = Vec::with_capacity(height + 1);
    let mut i: usize = 0;
    while i <= height
        invariant
            height < usize::MAX,
            i <= height + 1,
            path.len() == height + 1,
            result.len() == i,
            forall|k: int| 0 <= k < i ==> result[k] == path[k],
        decreases height + 1 - i,
    {
        result.push(path[i]);
        i = i + 1;
    }
    result
}

/// Masking a bitmap to the bits below a position keeps those bits and
/// clears the others.
pub proof fn lemma_masked_bits(bitmap: u32, position: nat, limit: nat)
    requires
        position < 32,
        limit <= 32,
    ensures
        bits_below(bitmap & (((1u32 << (position as u32)) - 1) as u32), limit) == bits_below(
            bitmap,
            if limit < position {
                limit
            } else {
                position
            },
        ),
    decreases limit,
{
    if limit > 0 {
        let k = (limit - 1) as nat;
        lemma_masked_bits(bitmap, position, k);
        let p = position as u32;
        let j = k as u32;
        let mask = ((1u32 << p) - 1) as u32;
        assert(((bitmap & (((1u32 << p) - 1) as u32)) >> j) & 1u32 == 1u32 <==> (j < p && (bitmap
            >> j) & 1u32 == 1u32)) by (bit_vector)
            requires
                p < 32,
                j < 32,
        ;
    }
}

/// The slot of the child for digit `position` in the sparse array of a
/// node: the number of bits that are set in the bitmap below that digit.
pub fn hamt_get_index(bitmap: u32, position: usize) -> (slot: usize)
    requires
        position < 32,
    ensures
        slot == bits_below(bitmap, position as nat),
{
    let p = position as u32;
    assert((1u32 << p) >= 1) by (bit_vector)
        requires
            p < 32,
    ;
    let mask: u32 = (1u32 << p) - 1;
    proof {
        lemma_masked_bits(bitmap, position as nat, 32);
    }
    (bitmap & mask).count_ones() as usize
}

/// Sets bit `position` of a bitmap.
pub fn hamt_set_bit(bitmap: u32, position: usize) -> (result: u32)
    requires
        position < 32,
    ensures
        result == bitmap | (1u32 << (position as u32)),
        forall|k: nat|
            k < 32 ==> (#[trigger] bit_is_set(result, k) <==> (k == position || bit_is_set(
                bitmap,
                k,
            ))),
{
    let p: u32 = position as u32;
    let result: u32 = bitmap | (1u32 << p);
    proof {
        assert forall|k: nat| k < 32 implies (#[trigger] bit_is_set(result, k) <==> (k == position
            || bit_is_set(bitmap, k))) by {
            let j: u32 = k as u32;
            assert(((bitmap | (1u32 << p)) >> j) & 1u32 == 1u32 <==> (j == p || (bitmap >> j) & 1u32
                == 1u32)) by (bit_vector)
                requires
                    p < 32,
                    j < 32,
            ;
        }
    }
    result
}

/// Clears bit `position` of a bitmap.
pub fn hamt_clear_bit(bitmap: u32, position: usize) -> (result: u32)
    requires
        position < 32,
    ensures
        result == bitmap & !(1u32 << (position as u32)),
        forall|k: nat|
            k < 32 ==> (#[trigger] bit_is_set(result, k) <==> (k != position && bit_is_set(
                bitmap,
                k,
            ))),
{
    let p: u32 = position as u32;
    let result: u32 = bitmap & !(1u32 << p);
    proof {
        assert forall|k: nat| k < 32 implies (#[trigger] bit_is_set(result, k) <==> (k != position
            && bit_is_set(bitmap, k))) by {
            let j: u32 = k as u32;
            assert(((bitmap & !(1u32 << p)) >> j) & 1u32 == 1u32 <==> (j != p && (bitmap >> j)
                & 1u32 == 1u32)) by (bit_vector)
                requires
                    p < 32,
                    j < 32,
            ;
        }
    }
    result
}

/// A copy of a buffer with `value` added at the end.
pub fn hamt_append<T: Copy>(data: &Vec<T>, value: T) -> (result: Vec<T>)
    ensures
        result@ == data@.push(value),
{
    let n = data.len();
    let mut result: Vec<T> = Vec::new();
    let mut i: usize = 0;
    while i < n
        invariant
            n == data.len(),
            i <= n,
            result@ == data@.take(i as int),
        decreases n - i,
    {
        result.push(data[i]);
        assert(result@ =~= data@.take(i + 1));
        i = i + 1;
    }
    assert(data@.take(n as int) =~= data@);
    result.push(value);
    result
}

/// A copy of a buffer with `value` added at the front.
pub fn hamt_prepend<T: Copy>(data: &Vec<T>, value: T) -> (result: Vec<T>)
    ensures
        result@ == seq![value] + data@,
{
    let n = data.len();
    let mut result: Vec<T> = Vec::new();
    result.push(value);
    let mut i: usize = 0;
    while i < n
        invariant
            n == data.len(),
            i <= n,
            result@ == seq![value] + data@.take(i as int),
        decreases n - i,
    {
        result.push(data[i]);
        assert(result@ =~= seq![value] + data@.take(i + 1));
        i = i + 1;
    }
    assert(data@.take(n as int) =~= data@);
    result
}

/// A copy of a buffer with `value` inserted before the element at `index`.
///
/// Fails with `InsertOutOfBounds` where `index` lies beyond the end.
pub fn hamt_insert<T: Copy>(data: &Vec<T>, index: usize, value: T) -> (result: Result<
    Vec<T>,
    KernelError,
>)
    ensures
        match result {
            Ok(buffer) => index <= data.len() && buffer@ == data@.insert(index as int, value),
            Err(e) => index > data.len() && e == KernelError::InsertOutOfBounds,
        },
{
    let n = data.len();
    if index > n {
        return Err(KernelError::InsertOutOfBounds);
    }
    let mut buffer: Vec<T> = Vec::new();
    let mut i: usize = 0;
    while i < index
        invariant
            n == data.len(),
            index <= n,
            i <= index,
            buffer@ == data@.take(i as int),
        decreases index - i,
    {
        buffer.push(data[i]);
        assert(buffer@ =~= data@.take(i + 1));
        i = i + 1;
    }
    buffer.push(value);
    let mut i: usize = index;
    while i < n
        invariant
            n == data.len(),
            index <= i <= n,
            buffer@ == data@.take(index as int).push(value) + data@.subrange(
                index as int,
                i as int,
            ),
        decreases n - i,
    {
        buffer.push(data[i]);
        assert(buffer@ =~= data@.take(index as int).push(value) + data@.subrange(
            index as int,
            i + 1,
        ));
        i = i + 1;
    }
    assert(buffer@ =~= data@.insert(index as int, value));
    Ok(buffer)
}

/// A copy of a buffer without the element at `index`.
///
/// Fails with `IndexOutOfBounds` where the buffer has no element at
/// `index`.
pub fn hamt_remove<T: Copy>(data: &Vec<T>, index: usize) -> (result: Result<Vec<T>, KernelError>)
    ensures
        match result {
            Ok(buffer) => index < data.len() && buffer@ == data@.remove(index as int),
            Err(e) => index >= data.len() && e == KernelError::IndexOutOfBounds,
        },
{
    let n = data.len();
    if index >= n {
        return Err(KernelError::IndexOutOfBounds);
    }
    let mut buffer: Vec<T> = Vec::new();
    let mut i: usize = 0;
    while i < index
        invariant
            n == data.len(),
            index < n,
            i <= index,
            buffer@ == data@.take(i as int),
        decreases index - i,
    {
        buffer.push(data[i]);
        assert(buffer@ =~= data@.take(i + 1));
        i = i + 1;
    }
    let mut i: usize = index + 1;
    while i < n
        invariant
            n == data.len(),
            index < i <= n,
            buffer@ == data@.take(index as int) + data@.subrange(index + 1, i as int),
        decreases n - i,
    {
        buffer.push(data[i]);
        assert(buffer@ =~= data@.take(index as int) + data@.subrange(index + 1, i + 1));
        i = i + 1;
    }
    assert(buffer@ =~= data@.remove(index as int));
    Ok(buffer)
}

/// A new buffer that holds the elements of `first` and then those of
/// `second`.
pub fn hamt_concat<T: Copy>(first: &Vec<T>, second: &Vec<T>) -> (result: Vec<T>)
    ensures
        result@ == first@ + second@,
{
    let n1 = first.len();
    let n2 = second.len();
    let mut result: Vec<T> = Vec::new();
    let mut i: usize = 0;
    while i < n1
        invariant
            n1 == first.len(),
            i <= n1,
            result@ == first@.take(i as int),
        decreases n1 - i,
    {
        result.push(first[i]);
        assert(result@ =~= first@.take(i + 1));
        i = i + 1;
    }
    assert(first@.take(n1 as int) =~= first@);
    let mut i: usize = 0;
    while i < n2
        invariant
            n2 == second.len(),
            i <= n2,
            result@ == first@ + second@.take(i as int),
        decreases n2 - i,
    {
        result.push(second[i]);
        assert(result@ =~= first@ + second@.take(i + 1));
        i = i + 1;
    }
    assert(second@.take(n2 as int) =~= second@);
    result
}

/// A copy of a buffer with the elements of `values` added at the end.
pub fn hamt_append_multiple<T: Copy>(data: &Vec<T>, values: &Vec<T>) -> (result: Vec<T>)
    ensures
        result@ == data@ + values@,
{
    hamt_concat(data, values)
}

/// A copy of a buffer with the elements of `values` added at the front.
pub fn hamt_prepend_multiple<T: Copy>(data: &Vec<T>, values: &Vec<T>) -> (result: Vec<T>)
    ensures
        result@ == values@ + data@,
{
    hamt_concat(values, data)
}

} // verus!
