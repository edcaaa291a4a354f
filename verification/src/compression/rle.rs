//! Run-length coding of byte strings.
//!
//! The coded form is a sequence of pairs: a count from 1 to 255 and the
//! byte that is repeated that often. A run longer than 255 is split.

use vstd::prelude::*;
use vstd::string::StringSliceAdditionalSpecFns;
use vstd::utf8::{decode_utf8, encode_utf8, valid_utf8};
use crate::compression::text::string_from_utf8;
use crate::error::KernelError;

verus! {

/// Length of the run of equal bytes that `s` starts with, 255 at most.
pub open spec fn leading_run(s: Seq<u8>) -> nat
    decreases s.len(),
{
    if s.len() == 0 {
        0
    } else if s.len() == 1 || s[1] != s[0] {
        1
    } else {
        let rest = leading_run(s.skip(1));
        if rest < 255 {
            rest + 1
        } else {
            255
        }
    }
}

/// The run-length coded form of `s`: for each run in turn, its length and
/// its byte.
pub open spec fn rle_encoding(s: Seq<u8>) -> Seq<u8>
    decreases s.len(),
    via rle_encoding_decreases
{
    if s.len() == 0 {
        Seq::empty()
    } else {
        seq![leading_run(s) as u8, s[0]] + rle_encoding(s.skip(leading_run(s) as int))
    }
}

#[via_fn]
proof fn rle_encoding_decreases(s: Seq<u8>) {
    lemma_leading_run(s);
}

/// `byte`, `count` times over.
pub open spec fn repeated(byte: u8, count: nat) -> Seq<u8> {
    Seq::new(count, |i: int| byte)
}

/// What run-length coded `bytes` decode to: each pair of a count and a
/// byte stands for the byte that often. A byte left over at the end stands
/// for nothing.
pub open spec fn rle_decoding(bytes: Seq<u8>) -> Seq<u8>
    decreases bytes.len(),
{
    if bytes.len() < 2 {
        Seq::empty()
    } else {
        repeated(bytes[1], bytes[0] as nat) + rle_decoding(bytes.skip(2))
    }
}

/// The leading run of a string with a byte in it has from 1 to 255 bytes,
/// lies within the string, and its bytes are all equal to the first.
pub proof fn lemma_leading_run(s: Seq<u8>)
    ensures
        leading_run(s) <= s.len(),
        leading_run(s) <= 255,
        s.len() > 0 ==> leading_run(s) >= 1,
        forall|i: int| 0 <= i < leading_run(s) ==> #[trigger] s[i] == s[0],
    decreases s.len(),
{
    if s.len() >= 2 && s[1] == s[0] {
        lemma_leading_run(s.skip(1));
        assert forall|i: int| 0 <= i < leading_run(s) implies #[trigger] s[i] == s[0] by {
            if i > 0 {
                assert(s.skip(1)[i - 1] == s[i]);
                assert(s.skip(1)[0] == s[1]);
            }
        }
    }
}

/// A run of `count` equal bytes at the start of `s` that cannot be made
/// longer is the leading run.
pub proof fn lemma_leading_run_is(s: Seq<u8>, count: nat)
    requires
        1 <= count <= 255,
        count <= s.len(),
        forall|i: int| 0 <= i < count ==> #[trigger] s[i] == s[0],
        count == 255 || count == s.len() || s[count as int] != s[0],
    ensures
        leading_run(s) == count,
    decreases count,
{
    if count == 1 {
        if s.len() >= 2 && s[1] == s[0] {
            assert(false);
        }
    } else {
        let rest = s.skip(1);
        assert(rest[0] == s[1]);
        assert forall|i: int| 0 <= i < count - 1 implies #[trigger] rest[i] == rest[0] by {
            assert(rest[i] == s[i + 1]);
        }
        if count < 255 && count < s.len() {
            assert(rest[count - 1] == s[count as int]);
        }
        if count == 255 {
            lemma_leading_run(rest);
            lemma_leading_run_at_least(rest, 254);
        } else {
            lemma_leading_run_is(rest, (count - 1) as nat);
        }
    }
}

/// A run of `count` equal bytes at the start of `s` is no longer than the
/// leading run.
pub proof fn lemma_leading_run_at_least(s: Seq<u8>, count: nat)
    requires
        count <= 255,
        count <= s.len(),
        forall|i: int| 0 <= i < count ==> #[trigger] s[i] == s[0],
    ensures
        leading_run(s) >= count,
    decreases count,
{
    if count >= 2 {
        let rest = s.skip(1);
        assert(rest[0] == s[1]);
        assert forall|i: int| 0 <= i < count - 1 implies #[trigger] rest[i] == rest[0] by {
            assert(rest[i] == s[i + 1]);
        }
        lemma_leading_run_at_least(rest, (count - 1) as nat);
    } else if count == 1 {
        lemma_leading_run(s);
    }
}

/// The coded form has an even number of bytes.
pub proof fn lemma_rle_encoding_even(s: Seq<u8>)
    ensures
        rle_encoding(s).len() % 2 == 0,
    decreases s.len(),
{
    if s.len() > 0 {
        lemma_leading_run(s);
        lemma_rle_encoding_even(s.skip(leading_run(s) as int));
    }
}

/// Decoding the run-length coded form of a byte string gives the string
/// back.
pub proof fn rle_round_trip(s: Seq<u8>)
    ensures
        rle_decoding(rle_encoding(s)) == s,
    decreases s.len(),
{
    if s.len() == 0 {
        assert(rle_decoding(rle_encoding(s)) =~= s);
    } else {
        lemma_leading_run(s);
        let n = leading_run(s);
        let rest = s.skip(n as int);
        rle_round_trip(rest);
        let coded = rle_encoding(s);
        assert(coded.skip(2) =~= rle_encoding(rest));
        assert(coded[0] == n as u8);
        assert(coded[1] == s[0]);
        assert(repeated(s[0], n) + rest =~= s);
    }
}

/// Run-length coding a text by its UTF-8 bytes and decoding the result
/// gives bytes that are UTF-8 for the same text.
pub proof fn rle_text_round_trip(text: Seq<char>)
    ensures
        valid_utf8(rle_decoding(rle_encoding(encode_utf8(text)))),
        decode_utf8(rle_decoding(rle_encoding(encode_utf8(text)))) == text,
{
    broadcast use {vstd::utf8::encode_utf8_valid_utf8, vstd::utf8::encode_utf8_decode_utf8};

    rle_round_trip(encode_utf8(text));
}

/// Run-length codes a byte string.
pub fn rle_encode(bytes: &[u8]) -> (coded: Vec<u8>)
    ensures
        coded@ == rle_encoding(bytes@),
        coded.len() % 2 == 0,
{
    proof {
        lemma_rle_encoding_even(bytes@);
    }
    let mut compressed: Vec<u8> = Vec::new();
    if bytes.len() == 0 {
        return compressed;
    }
    let mut current = bytes[0];
    let mut count: u8 = 1;
    let mut i: usize = 1;
    let ghost mut start: int = 0;
    assert(bytes@.skip(0) =~= bytes@);
    while i < bytes.len()
        invariant
            1 <= i <= bytes.len(),
            0 <= start < i,
            count == i - start,
            1 <= count <= 255,
            current == bytes[start],
            forall|k: int| start <= k < i ==> #[trigger] bytes[k] == current,
            compressed@ + rle_encoding(bytes@.skip(start)) == rle_encoding(bytes@),
        decreases bytes.len() - i,
    {
        let byte = bytes[i];
        if byte == current && count < 255 {
            count = count + 1;
        } else {
            proof {
                let run = bytes@.skip(start);
                assert forall|k: int| 0 <= k < count implies #[trigger] run[k] == run[0] by {}
                lemma_leading_run_is(run, count as nat);
                assert(run.skip(count as int) =~= bytes@.skip(i as int));
                assert(compressed@.push(count).push(current) + rle_encoding(bytes@.skip(i as int))
                    =~= compressed@ + rle_encoding(run));
                start = i as int;
            }
            compressed.push(count);
            compressed.push(current);
            current = byte;
            count = 1;
        }
        i = i + 1;
    }
    proof {
        let run = bytes@.skip(start);
        assert forall|k: int| 0 <= k < count implies #[trigger] run[k] == run[0] by {}
        lemma_leading_run_is(run, count as nat);
        assert(run.skip(count as int) =~= Seq::<u8>::empty());
        assert(rle_encoding(run.skip(count as int)) =~= Seq::<u8>::empty());
        assert(rle_encoding(run) =~= seq![count, current]);
        assert(compressed@.push(count).push(current) =~= compressed@ + rle_encoding(run));
    }
    compressed.push(count);
    compressed.push(current);
    compressed
}

/// Decodes run-length coded bytes.
///
/// Fails with `InvalidRleData` where the number of bytes is odd.
pub fn rle_decode(bytes: &[u8]) -> (result: Result<Vec<u8>, KernelError>)
    ensures
        match result {
            Ok(decoded) => bytes.len() % 2 == 0 && decoded@ == rle_decoding(bytes@),
            Err(e) => bytes.len() % 2 == 1 && e == KernelError::InvalidRleData,
        },
{
    let length = bytes.len();
    if length % 2 != 0 {
        return Err(KernelError::InvalidRleData);
    }
    let mut decompressed: Vec<u8> = Vec::new();
    let mut i: usize = 0;
    assert(bytes@.skip(0) =~= bytes@);
    while i < length
        invariant
            length == bytes.len(),
            length % 2 == 0,
            i % 2 == 0,
            i <= length,
            decompressed@ + rle_decoding(bytes@.skip(i as int)) == rle_decoding(bytes@),
        decreases length - i,
    {
        let count = bytes[i];
        let byte = bytes[i + 1];
        let ghost before = decompressed@;
        let mut k: u8 = 0;
        while k < count
            invariant
                k <= count,
                decompressed@ == before + repeated(byte, k as nat),
            decreases count - k,
        {
            decompressed.push(byte);
            k = k + 1;
            assert(decompressed@ =~= before + repeated(byte, k as nat));
        }
        proof {
            let rest = bytes@.skip(i as int);
            assert(rest[0] == count && rest[1] == byte);
            assert(rest.skip(2) =~= bytes@.skip(i + 2));
            assert(decompressed@ + rle_decoding(bytes@.skip(i + 2)) =~= before + rle_decoding(
                rest,
            ));
        }
        i = i + 2;
    }
    assert(decompressed@ + Seq::<u8>::empty() =~= decompressed@);
    Ok(decompressed)
}

/// Run-length codes a text by its UTF-8 bytes.
pub fn rle_compress(text: &str) -> (coded: Vec<u8>)
    ensures
        coded@ == rle_encoding(text.spec_bytes()),
        coded.len() % 2 == 0,
{
    rle_encode(text.as_bytes())
}

/// Decodes run-length coded bytes to text.
///
/// Fails with `InvalidRleData` where the number of bytes is odd, and with
/// `InvalidUtf8` where the decoded bytes are not UTF-8.
pub fn rle_decompress(bytes: &[u8]) -> (result: Result<String, KernelError>)
    ensures
        match result {
            Ok(text) => bytes.len() % 2 == 0 && valid_utf8(rle_decoding(bytes@)) && text@
                == decode_utf8(rle_decoding(bytes@)),
            Err(e) => if bytes.len() % 2 == 1 {
                e == KernelError::InvalidRleData
            } else {
                !valid_utf8(rle_decoding(bytes@)) && e == KernelError::InvalidUtf8
            },
        },
{
    match rle_decode(bytes) {
        Ok(decoded) => match string_from_utf8(decoded) {
            Some(text) => Ok(text),
            None => Err(KernelError::InvalidUtf8),
        },
        Err(e) => Err(e),
    }
}

} // verus!
