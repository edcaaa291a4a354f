//! Packing of bit strings into bytes, most significant bit first.

use vstd::prelude::*;

verus! {

/// Bit `i` of `byte`, counting from the most significant bit.
pub open spec fn msb_bit(byte: u8, i: int) -> bool {
    (byte >> ((7 - i) as u8)) & 1u8 == 1u8
}

/// Bit `i` of a bit string that is read as padded with zeros.
pub open spec fn bit_or_zero(bits: Seq<bool>, i: int) -> bool {
    0 <= i < bits.len() && bits[i]
}

/// The weight of a set bit at position `i` from the most significant end.
pub open spec fn bit_weight(set: bool, i: int) -> int {
    if !set {
        0
    } else if i == 0 {
        128
    } else if i == 1 {
        64
    } else if i == 2 {
        32
    } else if i == 3 {
        16
    } else if i == 4 {
        8
    } else if i == 5 {
        4
    } else if i == 6 {
        2
    } else {
        1
    }
}

/// Byte `k` of the packed form of `bits`.
pub open spec fn packed_byte(bits: Seq<bool>, k: int) -> u8 {
    (bit_weight(bit_or_zero(bits, 8 * k), 0) + bit_weight(bit_or_zero(bits, 8 * k + 1), 1)
        + bit_weight(bit_or_zero(bits, 8 * k + 2), 2) + bit_weight(bit_or_zero(bits, 8 * k + 3), 3)
        + bit_weight(bit_or_zero(bits, 8 * k + 4), 4) + bit_weight(bit_or_zero(bits, 8 * k + 5), 5)
        + bit_weight(bit_or_zero(bits, 8 * k + 6), 6) + bit_weight(
        bit_or_zero(bits, 8 * k + 7),
        7,
    )) as u8
}

/// Number of bytes that hold `n` bits.
pub open spec fn packed_len(n: nat) -> nat {
    ((n + 7) / 8) as nat
}

/// The bytes that hold `bits`, eight to a byte, first bit in the most
/// significant position, the last byte padded with zero bits.
pub open spec fn pack_bits(bits: Seq<bool>) -> Seq<u8> {
    Seq::new(packed_len(bits.len()), |k: int| packed_byte(bits, k))
}

/// The bits of `bytes`, most significant bit of each byte first.
pub open spec fn unpack_bits(bytes: Seq<u8>) -> Seq<bool> {
    Seq::new(8 * bytes.len(), |i: int| msb_bit(bytes[i / 8], i % 8))
}

/// Number of zero bits that pad `n` bits to a whole number of bytes.
pub open spec fn padding_len(n: nat) -> nat {
    (8 * packed_len(n) - n) as nat
}

proof fn lemma_byte_from_bits(
    x: u8,
    b0: bool,
    b1: bool,
    b2: bool,
    b3: bool,
    b4: bool,
    b5: bool,
    b6: bool,
    b7: bool,
)
    requires
        b0 == ((x >> 7u8) & 1u8 == 1u8),
        b1 == ((x >> 6u8) & 1u8 == 1u8),
        b2 == ((x >> 5u8) & 1u8 == 1u8),
        b3 == ((x >> 4u8) & 1u8 == 1u8),
        b4 == ((x >> 3u8) & 1u8 == 1u8),
        b5 == ((x >> 2u8) & 1u8 == 1u8),
        b6 == ((x >> 1u8) & 1u8 == 1u8),
        b7 == ((x >> 0u8) & 1u8 == 1u8),
    ensures
        x == bit_weight(b0, 0) + bit_weight(b1, 1) + bit_weight(b2, 2) + bit_weight(b3, 3)
            + bit_weight(b4, 4) + bit_weight(b5, 5) + bit_weight(b6, 6) + bit_weight(b7, 7),
{
    let w0: u8 = if b0 { 128 } else { 0 };
    let w1: u8 = if b1 { 64 } else { 0 };
    let w2: u8 = if b2 { 32 } else { 0 };
    let w3: u8 = if b3 { 16 } else { 0 };
    let w4: u8 = if b4 { 8 } else { 0 };
    let w5: u8 = if b5 { 4 } else { 0 };
    let w6: u8 = if b6 { 2 } else { 0 };
    let w7: u8 = if b7 { 1 } else { 0 };
    assert(x == w0 + w1 + w2 + w3 + w4 + w5 + w6 + w7) by (bit_vector)
        requires
            w0 == (if (x >> 7u8) & 1u8 == 1u8 { 128u8 } else { 0u8 }),
            w1 == (if (x >> 6u8) & 1u8 == 1u8 { 64u8 } else { 0u8 }),
            w2 == (if (x >> 5u8) & 1u8 == 1u8 { 32u8 } else { 0u8 }),
            w3 == (if (x >> 4u8) & 1u8 == 1u8 { 16u8 } else { 0u8 }),
            w4 == (if (x >> 3u8) & 1u8 == 1u8 { 8u8 } else { 0u8 }),
            w5 == (if (x >> 2u8) & 1u8 == 1u8 { 4u8 } else { 0u8 }),
            w6 == (if (x >> 1u8) & 1u8 == 1u8 { 2u8 } else { 0u8 }),
            w7 == (if (x >> 0u8) & 1u8 == 1u8 { 1u8 } else { 0u8 }),
    ;
}

/// A byte whose bits are those of chunk `k` of `bits` is byte `k` of the
/// packed form.
pub proof fn lemma_packed_byte_unique(bits: Seq<bool>, k: int, x: u8)
    requires
        forall|t: int| 0 <= t < 8 ==> msb_bit(x, t) == bit_or_zero(bits, 8 * k + t),
    ensures
        x == packed_byte(bits, k),
{
    assert(msb_bit(x, 0) == bit_or_zero(bits, 8 * k + 0));
    assert(msb_bit(x, 1) == bit_or_zero(bits, 8 * k + 1));
    assert(msb_bit(x, 2) == bit_or_zero(bits, 8 * k + 2));
    assert(msb_bit(x, 3) == bit_or_zero(bits, 8 * k + 3));
    assert(msb_bit(x, 4) == bit_or_zero(bits, 8 * k + 4));
    assert(msb_bit(x, 5) == bit_or_zero(bits, 8 * k + 5));
    assert(msb_bit(x, 6) == bit_or_zero(bits, 8 * k + 6));
    assert(msb_bit(x, 7) == bit_or_zero(bits, 8 * k + 7));
    lemma_byte_from_bits(
        x,
        msb_bit(x, 0),
        msb_bit(x, 1),
        msb_bit(x, 2),
        msb_bit(x, 3),
        msb_bit(x, 4),
        msb_bit(x, 5),
        msb_bit(x, 6),
        msb_bit(x, 7),
    );
}

/// Each bit of a packed byte is the bit it was packed from.
pub proof fn lemma_packed_byte_bits(bits: Seq<bool>, k: int, t: int)
    requires
        0 <= t < 8,
    ensures
        msb_bit(packed_byte(bits, k), t) == bit_or_zero(bits, 8 * k + t),
{
    let b0 = bit_or_zero(bits, 8 * k);
    let b1 = bit_or_zero(bits, 8 * k + 1);
    let b2 = bit_or_zero(bits, 8 * k + 2);
    let b3 = bit_or_zero(bits, 8 * k + 3);
    let b4 = bit_or_zero(bits, 8 * k + 4);
    let b5 = bit_or_zero(bits, 8 * k + 5);
    let b6 = bit_or_zero(bits, 8 * k + 6);
    let b7 = bit_or_zero(bits, 8 * k + 7);
    let w0: u8 = if b0 { 128 } else { 0 };
    let w1: u8 = if b1 { 64 } else { 0 };
    let w2: u8 = if b2 { 32 } else { 0 };
    let w3: u8 = if b3 { 16 } else { 0 };
    let w4: u8 = if b4 { 8 } else { 0 };
    let w5: u8 = if b5 { 4 } else { 0 };
    let w6: u8 = if b6 { 2 } else { 0 };
    let w7: u8 = if b7 { 1 } else { 0 };
    let x: u8 = (w0 + w1 + w2 + w3 + w4 + w5 + w6 + w7) as u8;
    assert(x == packed_byte(bits, k));
    assert(w0 + w1 + w2 + w3 + w4 + w5 + w6 + w7 < 256 && (b0 == ((x >> 7u8) & 1u8 == 1u8)) && (b1
        == ((x >> 6u8) & 1u8 == 1u8)) && (b2 == ((x >> 5u8) & 1u8 == 1u8)) && (b3 == ((x >> 4u8)
        & 1u8 == 1u8)) && (b4 == ((x >> 3u8) & 1u8 == 1u8)) && (b5 == ((x >> 2u8) & 1u8 == 1u8))
        && (b6 == ((x >> 1u8) & 1u8 == 1u8)) && (b7 == ((x >> 0u8) & 1u8 == 1u8))) by (bit_vector)
        requires
            x == (w0 + w1 + w2 + w3 + w4 + w5 + w6 + w7) as u8,
            w0 == 128u8 || w0 == 0u8,
            w1 == 64u8 || w1 == 0u8,
            w2 == 32u8 || w2 == 0u8,
            w3 == 16u8 || w3 == 0u8,
            w4 == 8u8 || w4 == 0u8,
            w5 == 4u8 || w5 == 0u8,
            w6 == 2u8 || w6 == 0u8,
            w7 == 1u8 || w7 == 0u8,
            b0 == (w0 == 128u8),
            b1 == (w1 == 64u8),
            b2 == (w2 == 32u8),
            b3 == (w3 == 16u8),
            b4 == (w4 == 8u8),
            b5 == (w5 == 4u8),
            b6 == (w6 == 2u8),
            b7 == (w7 == 1u8),
    ;
}

/// Unpacking the packed form gives the bits back, followed by the padding.
pub proof fn lemma_unpack_pack(bits: Seq<bool>)
    ensures
        unpack_bits(pack_bits(bits)) == bits + Seq::new(padding_len(bits.len()), |i: int| false),
{
    let packed = pack_bits(bits);
    let left = unpack_bits(packed);
    let right = bits + Seq::new(padding_len(bits.len()), |i: int| false);
    assert(left.len() == right.len());
    assert forall|i: int| 0 <= i < left.len() implies left[i] == right[i] by {
        lemma_packed_byte_bits(bits, i / 8, i % 8);
    }
    assert(left =~= right);
}

/// Packs a bit string into bytes, eight bits to a byte, most significant
/// bit first; the last byte is padded with zero bits.
pub fn pack(bits: &Vec<bool>) -> (bytes: Vec<u8>)
    ensures
        bytes@ == pack_bits(bits@),
{
    let n = bits.len();
    let mut bytes: Vec<u8> = Vec::new();
    let mut start: usize = 0;
    while start < n
        invariant
            n == bits.len(),
            start <= n,
            start == n || start == 8 * bytes.len(),
            bytes.len() == packed_len(start as nat),
            forall|k: int| 0 <= k < bytes.len() ==> bytes[k] == packed_byte(bits@, k),
        decreases n - start,
    {
        let chunk: usize = if n - start < 8 {
            n - start
        } else {
            8
        };
        let mut byte: u8 = 0;
        let mut i: usize = 0;
        assert(forall|t: int| 0 <= t < 8 ==> !msb_bit(0u8, t)) by {
            assert(forall|s: u8| s < 8 ==> (0u8 >> s) & 1u8 != 1u8) by (bit_vector);
            assert forall|t: int| 0 <= t < 8 implies !msb_bit(0u8, t) by {
                let s = (7 - t) as u8;
                assert(s < 8);
            }
        }
        while i < chunk
            invariant
                n == bits.len(),
                start < n,
                chunk <= 8,
                chunk <= n - start,
                i <= chunk,
                forall|t: int|
                    0 <= t < 8 ==> msb_bit(byte, t) == (t < i && bit_or_zero(bits@, start + t)),
            decreases chunk - i,
        {
            if bits[start + i] {
                let shift: u8 = (7 - i) as u8;
                let next: u8 = byte | (1u8 << shift);
                proof {
                    assert forall|t: int| 0 <= t < 8 implies msb_bit(next, t) == (t < i + 1
                        && bit_or_zero(bits@, start + t)) by {
                        let s = (7 - t) as u8;
                        assert(((byte | (1u8 << shift)) >> s) & 1u8 == 1u8 <==> (s == shift || (byte
                            >> s) & 1u8 == 1u8)) by (bit_vector)
                            requires
                                s < 8,
                                shift < 8,
                        ;
                        assert(s == shift <==> t == i);
                        assert(msb_bit(byte, t) == (t < i && bit_or_zero(bits@, start + t)));
                        assert(bit_or_zero(bits@, start + i));
                    }
                }
                byte = next;
            }
            i = i + 1;
        }
        proof {
            let k = bytes.len() as int;
            assert(start == 8 * k);
            assert forall|t: int| 0 <= t < 8 implies msb_bit(byte, t) == bit_or_zero(
                bits@,
                8 * k + t,
            ) by {}
            lemma_packed_byte_unique(bits@, k, byte);
        }
        bytes.push(byte);
        start = start + chunk;
    }
    assert(bytes@ =~= pack_bits(bits@));
    bytes
}

} // verus!
