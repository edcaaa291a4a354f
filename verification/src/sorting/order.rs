//! What it means for a buffer to be the sorted form of another.

use vstd::prelude::*;

verus! {

/// No key is followed by a smaller one.
pub open spec fn ascending(s: Seq<u64>) -> bool {
    forall|i: int, j: int| 0 <= i <= j < s.len() ==> s[i] <= s[j]
}

/// `output` holds the keys of `input`, each as often as `input` does, in
/// ascending order.
pub open spec fn sorted_form(input: Seq<u64>, output: Seq<u64>) -> bool {
    ascending(output) && output.to_multiset() == input.to_multiset()
}

/// No 32-bit key is followed by a smaller one.
pub open spec fn ascending_u32(s: Seq<u32>) -> bool {
    forall|i: int, j: int| 0 <= i <= j < s.len() ==> s[i] <= s[j]
}

/// `output` holds the 32-bit keys of `input`, each as often as `input`
/// does, in ascending order.
pub open spec fn sorted_form_u32(input: Seq<u32>, output: Seq<u32>) -> bool {
    ascending_u32(output) && output.to_multiset() == input.to_multiset()
}

/// No byte is followed by a smaller one.
pub open spec fn ascending_u8(s: Seq<u8>) -> bool {
    forall|i: int, j: int| 0 <= i <= j < s.len() ==> s[i] <= s[j]
}

/// `output` holds the bytes of `input`, each as often as `input` does, in
/// ascending order.
pub open spec fn sorted_form_u8(input: Seq<u8>, output: Seq<u8>) -> bool {
    ascending_u8(output) && output.to_multiset() == input.to_multiset()
}

/// Exchanging two keys of a buffer keeps how often each key occurs.
pub proof fn lemma_swap_keeps_keys(s: Seq<u64>, i: int, j: int)
    requires
        0 <= i < s.len(),
        0 <= j < s.len(),
    ensures
        s.update(i, s[j]).update(j, s[i]).to_multiset() == s.to_multiset(),
{
    broadcast use vstd::seq_lib::to_multiset_update;

    let mid = s.update(i, s[j]);
    s.to_multiset_ensures();
    mid.to_multiset_ensures();
    assert(mid.to_multiset() =~= s.to_multiset().insert(s[j]).remove(s[i]));
    assert(mid.update(j, s[i]).to_multiset() =~= mid.to_multiset().insert(s[i]).remove(mid[j]));
    assert(s.to_multiset().contains(s[i]));
    assert(s.to_multiset().contains(s[j]));
    assert(mid.update(j, s[i]).to_multiset() =~= s.to_multiset());
}

/// Two buffers with the same keys have the same length.
pub proof fn lemma_same_keys_same_len(a: Seq<u64>, b: Seq<u64>)
    requires
        a.to_multiset() == b.to_multiset(),
    ensures
        a.len() == b.len(),
{
    a.to_multiset_ensures();
    b.to_multiset_ensures();
}

/// A buffer has one sorted form only.
pub proof fn sorted_form_is_unique(input: Seq<u64>, a: Seq<u64>, b: Seq<u64>)
    requires
        sorted_form(input, a),
        sorted_form(input, b),
    ensures
        a == b,
{
    let leq = |x: u64, y: u64| x <= y;
    assert(vstd::relations::total_ordering(leq));
    assert(vstd::relations::sorted_by(a, leq));
    assert(vstd::relations::sorted_by(b, leq));
    vstd::seq_lib::lemma_sorted_unique(a, b, leq);
}

} // verus!
