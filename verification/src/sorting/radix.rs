//! Radix sort on 32-bit keys: four passes, one for each byte from the
//! least significant to the most significant, each a counting sort that
//! keeps the order of keys with the same byte.

use vstd::prelude::*;
use crate::sorting::order::{ascending_u32, sorted_form_u32};

verus! {

/// Number of passes over a buffer of 32-bit keys.
pub const RADIX_PASSES: u32 = 4;

/// Number of values that one byte of a key can take.
pub const RADIX_BINS: usize = 256;

/// The weight of the byte that pass `pass` looks at.
pub open spec fn radix(pass: nat) -> int {
    if pass == 0 {
        1
    } else if pass == 1 {
        0x100
    } else if pass == 2 {
        0x1_0000
    } else if pass == 3 {
        0x100_0000
    } else {
        0x1_0000_0000
    }
}

/// The byte of `key` that pass `pass` looks at.
pub open spec fn digit(key: u32, pass: nat) -> int {
    (key as int / radix(pass)) % 256
}

/// The part of `key` below the byte that pass `pass` looks at.
pub open spec fn low_part(key: u32, pass: nat) -> int {
    key as int % radix(pass)
}

/// The keys are in ascending order of their parts below the byte that
/// pass `pass` looks at.
pub open spec fn ordered_by_low_part(s: Seq<u32>, pass: nat) -> bool {
    forall|i: int, j: int|
        0 <= i <= j < s.len() ==> low_part(#[trigger] s[i], pass) <= low_part(#[trigger] s[j], pass)
}

/// The keys of `s` whose byte in pass `pass` is `d`, in the order in which
/// they stand in `s`.
pub open spec fn bucket(s: Seq<u32>, pass: nat, d: int) -> Seq<u32>
    decreases s.len(),
{
    if s.len() == 0 {
        Seq::empty()
    } else if digit(s.last(), pass) == d {
        bucket(s.drop_last(), pass, d).push(s.last())
    } else {
        bucket(s.drop_last(), pass, d)
    }
}

/// The buckets for the bytes below `d`, one after the other.
pub open spec fn buckets_below(s: Seq<u32>, pass: nat, d: nat) -> Seq<u32>
    decreases d,
{
    if d == 0 {
        Seq::empty()
    } else {
        buckets_below(s, pass, (d - 1) as nat) + bucket(s, pass, d - 1)
    }
}

/// The keys of `s` in ascending order of their byte in pass `pass`, keys
/// with the same byte in the order in which they stand in `s`.
pub open spec fn stable_by_digit(s: Seq<u32>, pass: nat) -> Seq<u32> {
    buckets_below(s, pass, 256)
}

/// A key is its byte in a pass, at that byte's weight, on top of the part
/// below it; the part of a key below the byte after the fourth is the key.
pub proof fn lemma_digit_low_part(key: u32, pass: nat)
    requires
        pass < 4,
    ensures
        0 <= digit(key, pass) < 256,
        0 <= low_part(key, pass) < radix(pass),
        low_part(key, pass + 1) == digit(key, pass) * radix(pass) + low_part(key, pass),
        low_part(key, 4) == key,
{
}

/// A longer prefix has buckets that are no shorter, and longer by one for
/// the byte of the key that it adds.
pub proof fn lemma_bucket_take(s: Seq<u32>, pass: nat, d: int, i: int)
    requires
        0 <= i < s.len(),
    ensures
        bucket(s.take(i + 1), pass, d) == if digit(s[i], pass) == d {
            bucket(s.take(i), pass, d).push(s[i])
        } else {
            bucket(s.take(i), pass, d)
        },
        bucket(s.take(i + 1), pass, d).len() <= bucket(s, pass, d).len(),
{
    assert(s.take(i + 1).drop_last() =~= s.take(i));
    lemma_bucket_prefix(s, pass, d, i + 1);
}

/// The bucket of a prefix is no longer than the bucket of the whole.
pub proof fn lemma_bucket_prefix(s: Seq<u32>, pass: nat, d: int, i: int)
    requires
        0 <= i <= s.len(),
    ensures
        bucket(s.take(i), pass, d).len() <= bucket(s, pass, d).len(),
    decreases s.len() - i,
{
    if i == s.len() {
        assert(s.take(i) =~= s);
    } else {
        lemma_bucket_prefix(s, pass, d, i + 1);
        assert(s.take(i + 1).drop_last() =~= s.take(i));
    }
}

/// Each key of a bucket stands in the buffer and has the bucket's byte.
pub proof fn lemma_bucket_member(s: Seq<u32>, pass: nat, d: int, r: int) -> (k: int)
    requires
        0 <= r < bucket(s, pass, d).len(),
    ensures
        0 <= k < s.len(),
        s[k] == bucket(s, pass, d)[r],
        digit(s[k], pass) == d,
    decreases s.len(),
{
    if digit(s.last(), pass) == d && r == bucket(s, pass, d).len() - 1 {
        s.len() - 1
    } else {
        lemma_bucket_member(s.drop_last(), pass, d, r)
    }
}

/// A bucket of a buffer that is ordered by low part is ordered by low part.
pub proof fn lemma_bucket_ordered(s: Seq<u32>, pass: nat, d: int)
    requires
        ordered_by_low_part(s, pass),
    ensures
        ordered_by_low_part(bucket(s, pass, d), pass),
    decreases s.len(),
{
    if s.len() > 0 {
        let init = s.drop_last();
        assert forall|i: int, j: int| 0 <= i <= j < init.len() implies low_part(
            #[trigger] init[i],
            pass,
        ) <= low_part(#[trigger] init[j], pass) by {
            assert(init[i] == s[i] && init[j] == s[j]);
        }
        lemma_bucket_ordered(init, pass, d);
        let b = bucket(s, pass, d);
        let before = bucket(init, pass, d);
        assert forall|i: int, j: int| 0 <= i <= j < b.len() implies low_part(
            #[trigger] b[i],
            pass,
        ) <= low_part(#[trigger] b[j], pass) by {
            if j < before.len() {
                assert(b[i] == before[i] && b[j] == before[j]);
            } else if i < before.len() {
                let k = lemma_bucket_member(init, pass, d, i);
                assert(init[k] == s[k]);
                assert(b[j] == s[s.len() - 1]);
            }
        }
    }
}

/// The buckets below a byte end where the bucket of that byte begins, and
/// all the buckets together are as long as the buffer.
pub proof fn lemma_buckets_len(s: Seq<u32>, pass: nat, d: nat, e: nat)
    requires
        d <= e <= 256,
    ensures
        buckets_below(s, pass, d).len() <= buckets_below(s, pass, e).len(),
        d < e ==> buckets_below(s, pass, d).len() + bucket(s, pass, d as int).len()
            <= buckets_below(s, pass, e).len(),
    decreases e - d,
{
    if d < e {
        lemma_buckets_len(s, pass, d, (e - 1) as nat);
    }
}

/// Adding a key to a buffer adds it to the buckets below the bytes above
/// its own.
proof fn lemma_buckets_push(s: Seq<u32>, pass: nat, d: nat)
    requires
        s.len() > 0,
        pass < 4,
    ensures
        buckets_below(s, pass, d).to_multiset() == if digit(s.last(), pass) < d {
            buckets_below(s.drop_last(), pass, d).to_multiset().insert(s.last())
        } else {
            buckets_below(s.drop_last(), pass, d).to_multiset()
        },
    decreases d,
{
    broadcast use vstd::seq_lib::to_multiset_build;

    let init = s.drop_last();
    let x = s.last();
    if d > 0 {
        let e = (d - 1) as nat;
        lemma_buckets_push(s, pass, e);
        vstd::seq_lib::lemma_multiset_commutative(buckets_below(s, pass, e), bucket(s, pass, e as int));
        vstd::seq_lib::lemma_multiset_commutative(
            buckets_below(init, pass, e),
            bucket(init, pass, e as int),
        );
        lemma_digit_low_part(x, pass);
        if digit(x, pass) == e {
            assert(bucket(s, pass, e as int) == bucket(init, pass, e as int).push(x));
            assert(buckets_below(s, pass, d).to_multiset() =~= buckets_below(
                init,
                pass,
                d,
            ).to_multiset().insert(x));
        } else if digit(x, pass) < e {
            assert(buckets_below(s, pass, d).to_multiset() =~= buckets_below(
                init,
                pass,
                d,
            ).to_multiset().insert(x));
        } else {
            assert(buckets_below(s, pass, d).to_multiset() =~= buckets_below(
                init,
                pass,
                d,
            ).to_multiset());
        }
    }
}

/// The buckets of an empty buffer are empty.
proof fn lemma_buckets_empty(s: Seq<u32>, pass: nat, d: nat)
    requires
        s.len() == 0,
    ensures
        buckets_below(s, pass, d) == Seq::<u32>::empty(),
    decreases d,
{
    if d > 0 {
        lemma_buckets_empty(s, pass, (d - 1) as nat);
        assert(buckets_below(s, pass, d) =~= Seq::<u32>::empty());
    }
}

/// Ordering a buffer by one byte keeps how often each key occurs.
pub proof fn lemma_stable_keeps_keys(s: Seq<u32>, pass: nat)
    requires
        pass < 4,
    ensures
        stable_by_digit(s, pass).to_multiset() == s.to_multiset(),
        stable_by_digit(s, pass).len() == s.len(),
    decreases s.len(),
{
    broadcast use vstd::seq_lib::to_multiset_build;

    if s.len() == 0 {
        lemma_buckets_empty(s, pass, 256);
        assert(s =~= Seq::<u32>::empty());
    } else {
        lemma_stable_keeps_keys(s.drop_last(), pass);
        lemma_buckets_push(s, pass, 256);
        lemma_digit_low_part(s.last(), pass);
        assert(s =~= s.drop_last().push(s.last()));
    }
    stable_by_digit(s, pass).to_multiset_ensures();
    s.to_multiset_ensures();
}

/// Each place among the buckets below `limit` lies in the bucket of one
/// byte.
pub proof fn lemma_locate(s: Seq<u32>, pass: nat, limit: nat, p: int) -> (d: int)
    requires
        limit <= 256,
        0 <= p < buckets_below(s, pass, limit).len(),
    ensures
        0 <= d < limit,
        buckets_below(s, pass, d as nat).len() <= p < buckets_below(s, pass, d as nat).len()
            + bucket(s, pass, d).len(),
        buckets_below(s, pass, limit)[p] == bucket(s, pass, d)[p - buckets_below(
            s,
            pass,
            d as nat,
        ).len()],
    decreases limit,
{
    let before = buckets_below(s, pass, (limit - 1) as nat);
    if p < before.len() {
        lemma_locate(s, pass, (limit - 1) as nat, p)
    } else {
        limit - 1
    }
}

/// Ordering by one byte a buffer that is ordered by the part below that
/// byte orders it by the part below the next byte.
pub proof fn lemma_stable_orders(s: Seq<u32>, pass: nat)
    requires
        pass < 4,
        ordered_by_low_part(s, pass),
    ensures
        ordered_by_low_part(stable_by_digit(s, pass), pass + 1),
{
    let out = stable_by_digit(s, pass);
    assert forall|i: int, j: int| 0 <= i <= j < out.len() implies low_part(
        #[trigger] out[i],
        pass + 1,
    ) <= low_part(#[trigger] out[j], pass + 1) by {
        let d = lemma_locate(s, pass, 256, i);
        let e = lemma_locate(s, pass, 256, j);
        let start_d = buckets_below(s, pass, d as nat).len() as int;
        let start_e = buckets_below(s, pass, e as nat).len() as int;
        let kd = lemma_bucket_member(s, pass, d, i - start_d);
        let ke = lemma_bucket_member(s, pass, e, j - start_e);
        lemma_digit_low_part(out[i], pass);
        lemma_digit_low_part(out[j], pass);
        if d == e {
            lemma_bucket_ordered(s, pass, d);
            let b = bucket(s, pass, d);
            assert(low_part(b[i - start_d], pass) <= low_part(b[j - start_d], pass));
        } else {
            if e < d {
                lemma_buckets_len(s, pass, e as nat, d as nat);
            }
            assert(d < e);
            assert(digit(out[i], pass) * radix(pass) + radix(pass) <= digit(out[j], pass) * radix(
                pass,
            )) by (nonlinear_arith)
                requires
                    digit(out[i], pass) + 1 <= digit(out[j], pass),
                    radix(pass) > 0,
            ;
        }
    }
}

/// One pass of radix sort: writes to `temp` the keys of `values` in
/// ascending order of the byte that the pass looks at, keys with the same
/// byte in the order in which they stand in `values`.
pub fn radix_pass(values: &Vec<u32>, temp: &mut Vec<u32>, count: &mut Vec<usize>, pass: u32)
    requires
        pass < RADIX_PASSES,
        old(temp).len() == values.len(),
        old(count).len() == RADIX_BINS,
    ensures
        final(temp)@ == stable_by_digit(values@, pass as nat),
        final(count).len() == RADIX_BINS,
{
    let n = values.len();
    let shift: u32 = 8 * pass;
    let ghost s = values@;
    let ghost p = pass as nat;

    let mut d: usize = 0;
    while d < RADIX_BINS
        invariant
            count.len() == RADIX_BINS,
            d <= RADIX_BINS,
            forall|e: int| 0 <= e < d ==> count[e] == 0,
        decreases RADIX_BINS - d,
    {
        count.set(d, 0);
        d = d + 1;
    }

    let mut i: usize = 0;
    assert forall|e: int| 0 <= e < 256 implies bucket(s.take(0), p, e).len() == 0 by {
        assert(s.take(0) =~= Seq::<u32>::empty());
    }
    while i < n
        invariant
            n == values.len(),
            s == values@,
            p == pass as nat,
            shift == 8 * pass,
            pass < 4,
            i <= n,
            count.len() == RADIX_BINS,
            forall|e: int| 0 <= e < 256 ==> count[e] == bucket(s.take(i as int), p, e).len(),
        decreases n - i,
    {
        let val = values[i];
        let byte = ((val >> shift) & 0xFF) as usize;
        proof {
            lemma_shift_is_digit(val, pass);
            assert forall|e: int| 0 <= e < 256 implies bucket(s.take(i + 1), p, e).len() == (
            if e == byte {
                count[e] + 1
            } else {
                count[e] as int
            }) by {
                lemma_bucket_take(s, p, e, i as int);
            }
            lemma_bucket_take(s, p, byte as int, i as int);
            lemma_bucket_le_len(s, p, byte as int);
        }
        let c = count[byte];
        count.set(byte, c + 1);
        i = i + 1;
    }
    assert(s.take(n as int) =~= s);

    let mut total: usize = 0;
    let mut d: usize = 0;
    while d < RADIX_BINS
        invariant
            n == values.len(),
            s == values@,
            p == pass as nat,
            pass < 4,
            count.len() == RADIX_BINS,
            d <= RADIX_BINS,
            total == buckets_below(s, p, d as nat).len(),
            forall|e: int| 0 <= e < d ==> count[e] == buckets_below(s, p, e as nat).len(),
            forall|e: int| d <= e < 256 ==> count[e] == bucket(s, p, e).len(),
        decreases RADIX_BINS - d,
    {
        proof {
            lemma_buckets_len(s, p, d as nat, 256);
            lemma_stable_keeps_keys(s, p);
        }
        let c = count[d];
        count.set(d, total);
        total = total + c;
        d = d + 1;
    }

    let mut i: usize = 0;
    assert forall|e: int| 0 <= e < 256 implies bucket(s.take(0), p, e).len() == 0 by {
        assert(s.take(0) =~= Seq::<u32>::empty());
    }
    while i < n
        invariant
            n == values.len(),
            n == temp.len(),
            s == values@,
            p == pass as nat,
            shift == 8 * pass,
            pass < 4,
            i <= n,
            count.len() == RADIX_BINS,
            forall|e: int|
                0 <= e < 256 ==> count[e] == buckets_below(s, p, e as nat).len() + bucket(
                    s.take(i as int),
                    p,
                    e,
                ).len(),
            forall|e: int, r: int|
                0 <= e < 256 && 0 <= r < bucket(s.take(i as int), p, e).len() ==> temp[buckets_below(
                    s,
                    p,
                    e as nat,
                ).len() + r] == #[trigger] bucket(s.take(i as int), p, e)[r],
        decreases n - i,
    {
        let val = values[i];
        let byte = ((val >> shift) & 0xFF) as usize;
        proof {
            lemma_shift_is_digit(val, pass);
            lemma_bucket_take(s, p, byte as int, i as int);
            lemma_buckets_len(s, p, byte as nat, 256);
            lemma_stable_keeps_keys(s, p);
        }
        let pos = count[byte];
        let ghost before = temp@;
        let ghost done = bucket(s.take(i as int), p, byte as int).len() as int;
        assert(pos == buckets_below(s, p, byte as nat).len() + done);
        assert(done < bucket(s, p, byte as int).len());
        assert(pos < n);
        temp.set(pos, val);
        proof {
            assert forall|e: int, r: int| 0 <= e < 256 && 0 <= r < bucket(
                s.take(i + 1),
                p,
                e,
            ).len() implies temp[buckets_below(s, p, e as nat).len() + r] == #[trigger] bucket(
                s.take(i + 1),
                p,
                e,
            )[r] by {
                lemma_bucket_take(s, p, e, i as int);
                lemma_bucket_prefix(s, p, e, i as int);
                lemma_buckets_len(s, p, e as nat, 256);
                let start = buckets_below(s, p, e as nat).len() as int;
                let place = start + r;
                let old_bucket = bucket(s.take(i as int), p, e);
                if e == byte {
                    if r < done {
                        assert(place != pos);
                        assert(before[place] == old_bucket[r]);
                        assert(temp[place] == before[place]);
                    } else {
                        assert(place == pos);
                    }
                } else {
                    assert(bucket(s.take(i + 1), p, e) == old_bucket);
                    if e < byte {
                        lemma_buckets_len(s, p, e as nat, byte as nat);
                        assert(place < pos);
                    } else {
                        lemma_buckets_len(s, p, byte as nat, e as nat);
                        assert(pos < place);
                    }
                    assert(place < n);
                    assert(before[place] == old_bucket[r]);
                    assert(temp[place] == before[place]);
                }
            }
            assert forall|e: int| 0 <= e < 256 implies (if e == byte {
                pos + 1
            } else {
                count[e] as int
            }) == buckets_below(s, p, e as nat).len() + bucket(s.take(i + 1), p, e).len() by {
                lemma_bucket_take(s, p, e, i as int);
            }
        }
        count.set(byte, pos + 1);
        i = i + 1;
    }
    proof {
        assert(s.take(n as int) =~= s);
        lemma_stable_keeps_keys(s, p);
        let out = stable_by_digit(s, p);
        assert forall|q: int| 0 <= q < n implies temp[q] == out[q] by {
            let e = lemma_locate(s, p, 256, q);
            let r = q - buckets_below(s, p, e as nat).len();
            assert(temp[buckets_below(s, p, e as nat).len() + r] == bucket(s, p, e)[r]);
        }
        assert(temp@ =~= out);
    }
}

/// A bucket is no longer than the buffer.
pub proof fn lemma_bucket_le_len(s: Seq<u32>, pass: nat, d: int)
    ensures
        bucket(s, pass, d).len() <= s.len(),
    decreases s.len(),
{
    if s.len() > 0 {
        lemma_bucket_le_len(s.drop_last(), pass, d);
    }
}

/// The byte that a pass takes out of a key by shifting and masking is the
/// digit of the key in that pass.
pub proof fn lemma_shift_is_digit(key: u32, pass: u32)
    requires
        pass < 4,
    ensures
        (key >> (8 * pass) as u32) & 0xFF == digit(key, pass as nat),
{
    assert((key >> 0u32) & 0xFF == (key / 1) % 256) by (bit_vector);
    assert((key >> 8u32) & 0xFF == (key / 0x100) % 256) by (bit_vector);
    assert((key >> 16u32) & 0xFF == (key / 0x1_0000) % 256) by (bit_vector);
    assert((key >> 24u32) & 0xFF == (key / 0x100_0000) % 256) by (bit_vector);
}

/// Sorts a buffer of 32-bit keys into a new buffer by radix sort.
pub fn radix_sort_u32(input: &Vec<u32>) -> (sorted: Vec<u32>)
    ensures
        sorted_form_u32(input@, sorted@),
        sorted.len() == input.len(),
{
    let length = input.len();
    let mut values: Vec<u32> = Vec::with_capacity(length);
    let mut i: usize = 0;
    while i < length
        invariant
            length == input.len(),
            i <= length,
            values@ == input@.take(i as int),
        decreases length - i,
    {
        values.push(input[i]);
        assert(values@ =~= input@.take(i + 1));
        i = i + 1;
    }
    assert(input@.take(length as int) =~= input@);
    if length <= 1 {
        return values;
    }
    let mut temp: Vec<u32> = vec![0u32; length];
    let mut count: Vec<usize> = vec![0usize; 256];
    let mut pass: u32 = 0;
    assert(ordered_by_low_part(values@, 0));
    while pass < RADIX_PASSES
        invariant
            pass <= RADIX_PASSES,
            values.len() == length,
            temp.len() == length,
            count.len() == RADIX_BINS,
            values@.to_multiset() == input@.to_multiset(),
            ordered_by_low_part(values@, pass as nat),
        decreases RADIX_PASSES - pass,
    {
        proof {
            lemma_stable_keeps_keys(values@, pass as nat);
            lemma_stable_orders(values@, pass as nat);
        }
        radix_pass(&values, &mut temp, &mut count, pass);
        std::mem::swap(&mut values, &mut temp);
        pass = pass + 1;
    }
    proof {
        assert forall|i: int, j: int| 0 <= i <= j < values.len() implies values[i] <= values[j] by {
            lemma_digit_low_part(values[i], 0);
            lemma_digit_low_part(values[j], 0);
            assert(low_part(values@[i], 4) <= low_part(values@[j], 4));
        }
    }
    values
}

} // verus!
