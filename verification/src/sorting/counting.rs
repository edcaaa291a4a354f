//! Counting sort on bytes: one pass builds a histogram of 256 bins, and
//! the bins are then emitted in ascending order.

use vstd::prelude::*;
use crate::sorting::order::{ascending_u8, sorted_form_u8};

verus! {

/// Sorts a buffer of bytes into a new buffer by counting sort.
pub fn counting_sort_u8(input: &Vec<u8>) -> (sorted: Vec<u8>)
    ensures
        sorted_form_u8(input@, sorted@),
        sorted.len() == input.len(),
{
    let length = input.len();
    let mut count: Vec<usize> = vec![0usize; 256];
    let mut i: usize = 0;
    proof {
        assert(input@.take(0) =~= Seq::<u8>::empty());
        input@.take(0).to_multiset_ensures();
        assert forall|v: u8| count[v as int] == #[trigger] input@.take(0).to_multiset().count(v) by {
            if input@.take(0).to_multiset().count(v) > 0 {
                assert(input@.take(0).to_multiset().contains(v));
                assert(input@.take(0).contains(v));
            }
        }
    }
    while i < length
        invariant
            length == input.len(),
            i <= length,
            count.len() == 256,
            forall|v: u8| count[v as int] == #[trigger] input@.take(i as int).to_multiset().count(v),
            forall|v: int| 0 <= v < 256 ==> #[trigger] count[v] <= i,
        decreases length - i,
    {
        let val = input[i] as usize;
        proof {
            assert(input@.take(i + 1) =~= input@.take(i as int).push(input[i as int]));
        }
        let c = count[val];
        count.set(val, c + 1);
        proof {
            let taken = input@.take(i as int);
            let key = input[i as int];
            vstd::seq_lib::to_multiset_build(taken, key);
            assert forall|v: u8| count[v as int] == #[trigger] input@.take(
                i + 1,
            ).to_multiset().count(v) by {
                assert(taken.to_multiset().insert(key).count(v) == taken.to_multiset().count(v) + (
                if v == key {
                    1int
                } else {
                    0int
                }));
            }
        }
        i = i + 1;
    }
    assert(input@.take(length as int) =~= input@);

    let mut result: Vec<u8> = Vec::with_capacity(length);
    let mut val: usize = 0;
    proof {
        result@.to_multiset_ensures();
        assert forall|v: u8| #[trigger] result@.to_multiset().count(v) == 0 by {
            if result@.to_multiset().count(v) > 0 {
                assert(result@.to_multiset().contains(v));
                assert(result@.contains(v));
            }
        }
    }
    while val < 256
        invariant
            val <= 256,
            count.len() == 256,
            ascending_u8(result@),
            forall|k: int| 0 <= k < result.len() ==> result[k] < val,
            forall|v: u8|
                #[trigger] result@.to_multiset().count(v) == if v < val {
                    count[v as int] as int
                } else {
                    0
                },
        decreases 256 - val,
    {
        let cnt = count[val];
        let mut emitted: usize = 0;
        while emitted < cnt
            invariant
                val < 256,
                count.len() == 256,
                cnt == count[val as int],
                emitted <= cnt,
                ascending_u8(result@),
                forall|k: int| 0 <= k < result.len() ==> result[k] <= val,
                forall|v: u8|
                    #[trigger] result@.to_multiset().count(v) == if v < val {
                        count[v as int] as int
                    } else if v == val {
                        emitted as int
                    } else {
                        0
                    },
            decreases cnt - emitted,
        {
            let ghost before = result@;
            result.push(val as u8);
            proof {
                assert(result@ == before.push(val as u8));
                vstd::seq_lib::to_multiset_build(before, val as u8);
                assert forall|v: u8| #[trigger]
                    result@.to_multiset().count(v) == before.to_multiset().count(v) + (if v == val {
                        1int
                    } else {
                        0int
                    }) by {}
                assert forall|a: int, b: int| 0 <= a <= b < result.len() implies result[a]
                    <= result[b] by {
                    if b < before.len() {
                        assert(before[a] <= before[b]);
                    }
                }
            }
            emitted = emitted + 1;
        }
        val = val + 1;
    }
    proof {
        assert forall|v: u8| result@.to_multiset().count(v) == input@.to_multiset().count(v) by {
            assert(result@.to_multiset().count(v) == count[v as int]);
        }
        assert(result@.to_multiset() =~= input@.to_multiset());
        result@.to_multiset_ensures();
        input@.to_multiset_ensures();
    }
    result
}

} // verus!
