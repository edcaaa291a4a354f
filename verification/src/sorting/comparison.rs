//! Comparison sorts on 64-bit keys.

use vstd::prelude::*;
use crate::sorting::order::{ascending, lemma_same_keys_same_len, lemma_swap_keeps_keys, sorted_form};

verus! {

/// Below this many keys a buffer is sorted by insertion.
pub const INSERTION_SORT_LIMIT: usize = 20;

/// From this many keys on a buffer is sorted by merging.
pub const MERGE_SORT_THRESHOLD: usize = 1000;

/// From this many keys on `numeric_sort_f64` sorts without keeping the
/// order of equal keys.
pub const UNSTABLE_SORT_THRESHOLD: usize = 10000;

/// `sort` of the standard library on a slice of integers: the keys come
/// out in ascending order, each as often as it went in.
#[verifier::external_body]
fn sort_stable(keys: &mut Vec<u64>)
    ensures
        sorted_form(old(keys)@, final(keys)@),
        final(keys).len() == old(keys).len(),
{
    keys.sort();
}

/// `sort_unstable` of the standard library on a slice of integers: the
/// keys come out in ascending order, each as often as it went in.
#[verifier::external_body]
fn sort_unstable(keys: &mut Vec<u64>)
    ensures
        sorted_form(old(keys)@, final(keys)@),
        final(keys).len() == old(keys).len(),
{
    keys.sort_unstable();
}

/// A copy of a buffer.
fn copy_keys(input: &Vec<u64>) -> (values: Vec<u64>)
    ensures
        values@ == input@,
{
    let length = input.len();
    let mut values: Vec<u64> = Vec::with_capacity(length);
    let mut i: usize = 0;
    while i < length
        invariant
            length == input.len(),
            i <= length,
            values@ == input@.take(i as int),
        decreases length - i,
    {
        values.push(input[i]);
        assert(values@ =~= input@.take(i + 1));
        i = i + 1;
    }
    assert(input@.take(length as int) =~= input@);
    values
}

/// The ways in which a buffer of keys is sorted.
#[derive(Clone, Copy, Debug, PartialEq, Eq)]
pub enum SortMethod {
    /// A buffer of one key at most is sorted as it is.
    AsIs,
    /// Sorting by insertion.
    Insertion,
    /// The standard library's sort that keeps the order of equal keys.
    Stable,
    /// The standard library's sort that does not.
    Unstable,
    /// Sorting by merging.
    Merge,
}

/// The method by which `specialized_sort_f64` sorts a buffer of `length`
/// keys.
pub open spec fn specialized_method(length: usize) -> SortMethod {
    if length <= 1 {
        SortMethod::AsIs
    } else if length < INSERTION_SORT_LIMIT {
        SortMethod::Insertion
    } else if length < MERGE_SORT_THRESHOLD {
        SortMethod::Stable
    } else {
        SortMethod::Merge
    }
}

/// The method by which `numeric_sort_f64` sorts a buffer of `length` keys.
pub open spec fn numeric_method(length: usize) -> SortMethod {
    if length <= 1 {
        SortMethod::AsIs
    } else if length < UNSTABLE_SORT_THRESHOLD {
        SortMethod::Stable
    } else {
        SortMethod::Unstable
    }
}

/// Chooses the method for `specialized_sort_f64` by the length of the
/// buffer.
pub fn choose_specialized_method(length: usize) -> (method: SortMethod)
    ensures
        method == specialized_method(length),
{
    if length <= 1 {
        SortMethod::AsIs
    } else if length < INSERTION_SORT_LIMIT {
        SortMethod::Insertion
    } else if length < MERGE_SORT_THRESHOLD {
        SortMethod::Stable
    } else {
        SortMethod::Merge
    }
}

/// Chooses the method for `numeric_sort_f64` by the length of the buffer.
pub fn choose_numeric_method(length: usize) -> (method: SortMethod)
    ensures
        method == numeric_method(length),
{
    if length <= 1 {
        SortMethod::AsIs
    } else if length < UNSTABLE_SORT_THRESHOLD {
        SortMethod::Stable
    } else {
        SortMethod::Unstable
    }
}

/// Sorts a buffer of keys in place by the given method. `AsIs` is for a
/// buffer of one key at most; a longer one it sorts by insertion.
pub fn sort_by_method(values: &mut Vec<u64>, method: SortMethod)
    ensures
        sorted_form(old(values)@, final(values)@),
        final(values).len() == old(values).len(),
{
    match method {
        SortMethod::AsIs | SortMethod::Insertion => insertion_sort(values),
        SortMethod::Stable => sort_stable(values),
        SortMethod::Unstable => sort_unstable(values),
        SortMethod::Merge => merge_sort(values),
    }
}

/// Sorts a buffer of keys into a new buffer, by the method that suits its
/// length: insertion below `INSERTION_SORT_LIMIT` keys, the standard
/// library's sort below `MERGE_SORT_THRESHOLD` keys, merging from there on.
pub fn specialized_sort_f64(input: &Vec<u64>) -> (sorted: Vec<u64>)
    ensures
        sorted_form(input@, sorted@),
        sorted.len() == input.len(),
{
    let mut values = copy_keys(input);
    sort_by_method(&mut values, choose_specialized_method(input.len()));
    values
}

/// Sorts a buffer of keys into a new buffer with the standard library's
/// sort; from `UNSTABLE_SORT_THRESHOLD` keys on with the one that does not
/// keep the order of equal keys.
pub fn numeric_sort_f64(input: &Vec<u64>) -> (sorted: Vec<u64>)
    ensures
        sorted_form(input@, sorted@),
        sorted.len() == input.len(),
{
    let mut values = copy_keys(input);
    sort_by_method(&mut values, choose_numeric_method(input.len()));
    values
}

/// Sorts a buffer in place by insertion: each key in turn moves down past
/// the larger keys before it.
pub fn insertion_sort(arr: &mut Vec<u64>)
    ensures
        sorted_form(old(arr)@, final(arr)@),
        final(arr).len() == old(arr).len(),
{
    let n = arr.len();
    let mut i: usize = 1;
    while i < n
        invariant
            n == arr.len(),
            n == old(arr).len(),
            1 <= i,
            arr@.to_multiset() == old(arr)@.to_multiset(),
            forall|a: int, b: int| 0 <= a <= b < i && b < n ==> arr[a] <= arr[b],
        decreases n - i,
    {
        let mut j: usize = i;
        while j > 0 && arr[j - 1] > arr[j]
            invariant
                n == arr.len(),
                i < n,
                j <= i,
                arr@.to_multiset() == old(arr)@.to_multiset(),
                forall|a: int, b: int| 0 <= a <= b < j ==> arr[a] <= arr[b],
                forall|a: int, b: int| j <= a <= b <= i ==> arr[a] <= arr[b],
                forall|a: int, b: int| 0 <= a < j && j < b <= i ==> arr[a] <= arr[b],
            decreases j,
        {
            let ghost before = arr@;
            let low = arr[j - 1];
            let high = arr[j];
            proof {
                lemma_swap_keeps_keys(before, j as int, j - 1);
            }
            arr.set(j, low);
            arr.set(j - 1, high);
            assert(arr@ =~= before.update(j as int, before[j - 1]).update(j - 1, before[j as int]));
            j = j - 1;
        }
        i = i + 1;
    }
}

/// Sorts a buffer in place by merging: each half is sorted by itself, and
/// the two are merged, taking from the first half where the keys are equal.
pub fn merge_sort(arr: &mut Vec<u64>)
    ensures
        sorted_form(old(arr)@, final(arr)@),
        final(arr).len() == old(arr).len(),
    decreases old(arr).len(),
{
    let len = arr.len();
    if len <= 1 {
        return ;
    }
    let mid = len / 2;
    let mut left: Vec<u64> = Vec::with_capacity(mid);
    let mut right: Vec<u64> = Vec::with_capacity(len - mid);
    let mut i: usize = 0;
    while i < mid
        invariant
            len == arr.len(),
            mid <= len,
            i <= mid,
            left@ == arr@.take(i as int),
        decreases mid - i,
    {
        left.push(arr[i]);
        assert(left@ =~= arr@.take(i + 1));
        i = i + 1;
    }
    let mut i: usize = mid;
    while i < len
        invariant
            len == arr.len(),
            mid <= i <= len,
            right@ == arr@.subrange(mid as int, i as int),
        decreases len - i,
    {
        right.push(arr[i]);
        assert(right@ =~= arr@.subrange(mid as int, i + 1));
        i = i + 1;
    }
    let ghost left_before = left@;
    let ghost right_before = right@;
    proof {
        assert(arr@ =~= left_before + right_before);
        vstd::seq_lib::lemma_multiset_commutative(left_before, right_before);
    }
    merge_sort(&mut left);
    merge_sort(&mut right);
    proof {
        lemma_same_keys_same_len(left@, left_before);
        lemma_same_keys_same_len(right@, right_before);
    }

    let mut i: usize = 0;
    let mut j: usize = 0;
    let mut k: usize = 0;
    proof {
        assert(arr@.take(0) =~= Seq::<u64>::empty());
        assert(left@.take(0) =~= Seq::<u64>::empty());
        assert(right@.take(0) =~= Seq::<u64>::empty());
        vstd::seq_lib::lemma_multiset_commutative(Seq::<u64>::empty(), Seq::<u64>::empty());
        assert(Seq::<u64>::empty() + Seq::<u64>::empty() =~= Seq::<u64>::empty());
    }
    while i < left.len() && j < right.len()
        invariant
            len == arr.len(),
            left.len() + right.len() == len,
            i <= left.len(),
            j <= right.len(),
            k == i + j,
            ascending(left@),
            ascending(right@),
            merged_so_far(arr@, left@, right@, i as int, j as int),
        decreases len - k,
    {
        if left[i] <= right[j] {
            proof {
                lemma_merge_takes_left(arr@, left@, right@, i as int, j as int);
            }
            arr.set(k, left[i]);
            i = i + 1;
        } else {
            proof {
                lemma_merge_takes_right(arr@, left@, right@, i as int, j as int);
            }
            arr.set(k, right[j]);
            j = j + 1;
        }
        k = k + 1;
    }
    while i < left.len()
        invariant
            len == arr.len(),
            left.len() + right.len() == len,
            i <= left.len(),
            j <= right.len(),
            i == left.len() || j == right.len(),
            k == i + j,
            ascending(left@),
            ascending(right@),
            merged_so_far(arr@, left@, right@, i as int, j as int),
        decreases len - k,
    {
        proof {
            lemma_merge_takes_left(arr@, left@, right@, i as int, j as int);
        }
        arr.set(k, left[i]);
        i = i + 1;
        k = k + 1;
    }
    while j < right.len()
        invariant
            len == arr.len(),
            left.len() + right.len() == len,
            i == left.len(),
            j <= right.len(),
            k == i + j,
            ascending(left@),
            ascending(right@),
            merged_so_far(arr@, left@, right@, i as int, j as int),
        decreases len - k,
    {
        proof {
            lemma_merge_takes_right(arr@, left@, right@, i as int, j as int);
        }
        arr.set(k, right[j]);
        j = j + 1;
        k = k + 1;
    }
    proof {
        assert(arr@.take(len as int) =~= arr@);
        assert(left@.take(left.len() as int) =~= left@);
        assert(right@.take(right.len() as int) =~= right@);
    }
}

/// The state of a merge that has taken `i` keys of `left` and `j` keys of
/// `right`: the first `i + j` keys of `merged` are those keys in ascending
/// order, and none of them is larger than a key not yet taken.
pub open spec fn merged_so_far(
    merged: Seq<u64>,
    left: Seq<u64>,
    right: Seq<u64>,
    i: int,
    j: int,
) -> bool {
    &&& 0 <= i <= left.len()
    &&& 0 <= j <= right.len()
    &&& i + j <= merged.len()
    &&& ascending(merged.take(i + j))
    &&& merged.take(i + j).to_multiset() == left.take(i).to_multiset().add(
        right.take(j).to_multiset(),
    )
    &&& forall|a: int, b: int| 0 <= a < i + j && i <= b < left.len() ==> merged[a] <= left[b]
    &&& forall|a: int, b: int| 0 <= a < i + j && j <= b < right.len() ==> merged[a] <= right[b]
}

/// Taking the next key of `left` keeps the merge state, where that key is
/// no larger than the keys of `right` not yet taken.
pub proof fn lemma_merge_takes_left(
    merged: Seq<u64>,
    left: Seq<u64>,
    right: Seq<u64>,
    i: int,
    j: int,
)
    requires
        merged_so_far(merged, left, right, i, j),
        ascending(left),
        ascending(right),
        i < left.len(),
        i + j < merged.len(),
        j < right.len() ==> left[i] <= right[j],
    ensures
        merged_so_far(merged.update(i + j, left[i]), left, right, i + 1, j),
{
    broadcast use vstd::seq_lib::to_multiset_build;

    let next = merged.update(i + j, left[i]);
    assert(next.take(i + j + 1) =~= merged.take(i + j).push(left[i]));
    assert(left.take(i + 1) =~= left.take(i).push(left[i]));
    assert(next.take(i + j + 1).to_multiset() =~= left.take(i + 1).to_multiset().add(
        right.take(j).to_multiset(),
    ));
    let taken = next.take(i + j + 1);
    assert forall|a: int, b: int| 0 <= a <= b < taken.len() implies taken[a] <= taken[b] by {
        if b < i + j {
            assert(merged.take(i + j)[a] <= merged.take(i + j)[b]);
        } else if a < i + j {
            assert(merged[a] <= left[i]);
        }
    }
}

/// Taking the next key of `right` keeps the merge state, where that key is
/// no larger than the keys of `left` not yet taken.
pub proof fn lemma_merge_takes_right(
    merged: Seq<u64>,
    left: Seq<u64>,
    right: Seq<u64>,
    i: int,
    j: int,
)
    requires
        merged_so_far(merged, left, right, i, j),
        ascending(left),
        ascending(right),
        j < right.len(),
        i + j < merged.len(),
        i < left.len() ==> right[j] <= left[i],
    ensures
        merged_so_far(merged.update(i + j, right[j]), left, right, i, j + 1),
{
    broadcast use vstd::seq_lib::to_multiset_build;

    let next = merged.update(i + j, right[j]);
    assert(next.take(i + j + 1) =~= merged.take(i + j).push(right[j]));
    assert(right.take(j + 1) =~= right.take(j).push(right[j]));
    assert(next.take(i + j + 1).to_multiset() =~= left.take(i).to_multiset().add(
        right.take(j + 1).to_multiset(),
    ));
    let taken = next.take(i + j + 1);
    assert forall|a: int, b: int| 0 <= a <= b < taken.len() implies taken[a] <= taken[b] by {
        if b < i + j {
            assert(merged.take(i + j)[a] <= merged.take(i + j)[b]);
        } else if a < i + j {
            assert(merged[a] <= right[j]);
        }
    }
}

} // verus!
