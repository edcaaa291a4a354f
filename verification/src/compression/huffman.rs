//! Huffman coding of byte strings.
//!
//! The coded form is a header followed by the code bits. The header is
//! the number of distinct byte values and then, for each of them in
//! ascending order, the byte and its frequency as four bytes, most
//! significant first. The code bits are packed most significant bit
//! first and padded with zero bits to a whole byte. The frequencies sum
//! to the number of bytes that were coded, and the decoder stops when it
//! has emitted that many, so that the padding decodes to nothing.

use vstd::prelude::*;
use vstd::string::StringSliceAdditionalSpecFns;
use vstd::utf8::{decode_utf8, valid_utf8};
use crate::compression::text::string_from_utf8;
use crate::compression::bits::{msb_bit, pack, pack_bits, unpack_bits};
use crate::compression::rle::repeated;
use crate::compression::tree::{
    build_tree, huffman_tree, lemma_total_frequency_push, total_frequency, HuffmanNode,
};
use crate::error::KernelError;

verus! {

/// How often `byte` occurs in `s`.
pub open spec fn occurrences(s: Seq<u8>, byte: u8) -> nat
    decreases s.len(),
{
    if s.len() == 0 {
        0
    } else {
        occurrences(s.drop_last(), byte) + if s.last() == byte {
            1nat
        } else {
            0nat
        }
    }
}

/// For each of the 256 byte values, how often it occurs in `s`.
pub open spec fn frequency_table(s: Seq<u8>) -> Seq<u32> {
    Seq::new(256, |b: int| occurrences(s, b as u8) as u32)
}

/// The sum of the first `n` entries of a frequency table.
pub open spec fn table_total(table: Seq<u32>, n: nat) -> nat
    decreases n,
{
    if n == 0 {
        0
    } else {
        table_total(table, (n - 1) as nat) + table[n - 1] as nat
    }
}

/// The leaves for the byte values below `n` that occur, in ascending
/// order of byte value.
pub open spec fn leaves_upto(table: Seq<u32>, n: nat) -> Seq<HuffmanNode>
    decreases n,
{
    if n == 0 {
        Seq::empty()
    } else {
        let before = leaves_upto(table, (n - 1) as nat);
        if table[n - 1] > 0 {
            before.push(HuffmanNode::Leaf { byte: (n - 1) as u8, freq: table[n - 1] })
        } else {
            before
        }
    }
}

/// The queue that the tree is built from: one leaf for each byte value
/// that occurs, in ascending order of byte value.
pub open spec fn leaves_of(table: Seq<u32>) -> Seq<HuffmanNode> {
    leaves_upto(table, 256)
}

/// A 32-bit value as four bytes, most significant first.
pub open spec fn be_bytes(value: u32) -> Seq<u8> {
    seq![
        (value / 0x100_0000) as u8,
        (value / 0x1_0000 % 256) as u8,
        (value / 0x100 % 256) as u8,
        (value % 256) as u8,
    ]
}

/// The 32-bit value of four bytes, most significant first.
pub open spec fn be_value(b0: u8, b1: u8, b2: u8, b3: u8) -> u32 {
    (b0 * 0x100_0000 + b1 * 0x1_0000 + b2 * 0x100 + b3) as u32
}

/// The header entries for the byte values below `n` that occur.
pub open spec fn header_entries(table: Seq<u32>, n: nat) -> Seq<u8>
    decreases n,
{
    if n == 0 {
        Seq::empty()
    } else {
        let before = header_entries(table, (n - 1) as nat);
        if table[n - 1] > 0 {
            before + seq![(n - 1) as u8] + be_bytes(table[n - 1])
        } else {
            before
        }
    }
}

/// The header for a frequency table.
pub open spec fn header_bytes(table: Seq<u32>) -> Seq<u8> {
    seq![leaves_of(table).len() as u8] + header_entries(table, 256)
}

/// The code of `byte` in `tree`, or no bits where the tree has no leaf for it.
pub open spec fn code_or_empty(tree: HuffmanNode, byte: u8) -> Seq<bool> {
    match tree.code_of(byte) {
        Some(code) => code,
        None => Seq::empty(),
    }
}

/// The codes of the bytes of `s`, one after the other.
pub open spec fn encode_bits(tree: HuffmanNode, s: Seq<u8>) -> Seq<bool>
    decreases s.len(),
{
    if s.len() == 0 {
        Seq::empty()
    } else {
        encode_bits(tree, s.drop_last()) + code_or_empty(tree, s.last())
    }
}

/// Number of distinct byte values in `s`.
pub open spec fn distinct_bytes(s: Seq<u8>) -> nat {
    leaves_of(frequency_table(s)).len()
}

/// The tree that codes `s`.
pub open spec fn code_tree(s: Seq<u8>) -> HuffmanNode {
    huffman_tree(leaves_of(frequency_table(s)))
}

/// The Huffman-coded form of `s`: nothing for the empty string, else the
/// header and the packed code bits.
pub open spec fn huffman_encoding(s: Seq<u8>) -> Seq<u8> {
    if s.len() == 0 {
        Seq::empty()
    } else {
        header_bytes(frequency_table(s)) + pack_bits(encode_bits(code_tree(s), s))
    }
}

/// No byte occurs more often than the string is long.
pub proof fn lemma_occurrences_bound(s: Seq<u8>, byte: u8)
    ensures
        occurrences(s, byte) <= s.len(),
    decreases s.len(),
{
    if s.len() > 0 {
        lemma_occurrences_bound(s.drop_last(), byte);
    }
}

/// Each byte of a string occurs in it.
pub proof fn lemma_occurrences_positive(s: Seq<u8>, i: int)
    requires
        0 <= i < s.len(),
    ensures
        occurrences(s, s[i]) > 0,
    decreases s.len(),
{
    if i < s.len() - 1 {
        lemma_occurrences_positive(s.drop_last(), i);
    }
}

/// The leaves below `n` are as many as `n` at most, carry the frequencies
/// of the table, and sum to the total of the table.
pub proof fn lemma_leaves_upto(table: Seq<u32>, n: nat)
    requires
        n <= 256,
        table.len() == 256,
    ensures
        leaves_upto(table, n).len() <= n,
        total_frequency(leaves_upto(table, n)) == table_total(table, n),
        forall|k: int|
            0 <= k < leaves_upto(table, n).len() ==> #[trigger] leaves_upto(table, n)[k] is Leaf,
        forall|b: int|
            0 <= b < n && table[b] > 0 ==> exists|k: int|
                0 <= k < leaves_upto(table, n).len() && #[trigger] leaves_upto(table, n)[k] == (
                HuffmanNode::Leaf { byte: b as u8, freq: table[b] }),
        forall|k: int|
            0 <= k < leaves_upto(table, n).len() ==> {
                let leaf = #[trigger] leaves_upto(table, n)[k];
                leaf->Leaf_byte < n && leaf->Leaf_freq == table[leaf->Leaf_byte as int]
                    && leaf->Leaf_freq > 0
            },
    decreases n,
{
    if n > 0 {
        let before = leaves_upto(table, (n - 1) as nat);
        lemma_leaves_upto(table, (n - 1) as nat);
        let now = leaves_upto(table, n);
        if table[n - 1] > 0 {
            let leaf = HuffmanNode::Leaf { byte: (n - 1) as u8, freq: table[n - 1] };
            lemma_total_frequency_push(before, leaf);
            assert(now[now.len() - 1] == leaf);
        }
        assert forall|b: int| 0 <= b < n && table[b] > 0 implies exists|k: int|
            0 <= k < now.len() && #[trigger] now[k] == (HuffmanNode::Leaf {
                byte: b as u8,
                freq: table[b],
            }) by {
            if b < n - 1 {
                let k = choose|k: int|
                    0 <= k < before.len() && #[trigger] before[k] == (HuffmanNode::Leaf {
                        byte: b as u8,
                        freq: table[b],
                    });
                assert(now[k] == before[k]);
            } else {
                assert(now[now.len() - 1] == (HuffmanNode::Leaf {
                    byte: b as u8,
                    freq: table[b],
                }));
            }
        }
        assert forall|k: int| 0 <= k < now.len() implies {
            let leaf = #[trigger] now[k];
            leaf->Leaf_byte < n && leaf->Leaf_freq == table[leaf->Leaf_byte as int]
                && leaf->Leaf_freq > 0
        } by {
            if k < before.len() {
                assert(now[k] == before[k]);
            }
        }
    }
}

/// Changing one entry of a table changes the total by the difference.
pub proof fn lemma_table_total_update(table: Seq<u32>, n: nat, b: int, value: u32)
    requires
        n <= table.len(),
        0 <= b < table.len(),
    ensures
        table_total(table.update(b, value), n) == if b < n {
            table_total(table, n) - table[b] + value
        } else {
            table_total(table, n) as int
        },
    decreases n,
{
    if n > 0 {
        lemma_table_total_update(table, (n - 1) as nat, b, value);
    }
}

/// A table of zeros has total zero.
pub proof fn lemma_table_total_zero(table: Seq<u32>, n: nat)
    requires
        n <= table.len(),
        forall|b: int| 0 <= b < table.len() ==> table[b] == 0,
    ensures
        table_total(table, n) == 0,
    decreases n,
{
    if n > 0 {
        lemma_table_total_zero(table, (n - 1) as nat);
    }
}

/// Counts how often each byte value occurs.
pub fn count_frequencies(bytes: &[u8]) -> (table: Vec<u32>)
    requires
        bytes.len() <= u32::MAX,
    ensures
        table@ == frequency_table(bytes@),
        table_total(table@, 256) == bytes.len(),
{
    let mut table: Vec<u32> = vec![0u32; 256];
    proof {
        lemma_table_total_zero(table@, 256);
    }
    let mut i: usize = 0;
    while i < bytes.len()
        invariant
            table.len() == 256,
            i <= bytes.len() <= u32::MAX,
            table_total(table@, 256) == i,
            forall|b: int|
                0 <= b < 256 ==> table[b] == occurrences(bytes@.take(i as int), b as u8),
        decreases bytes.len() - i,
    {
        let byte = bytes[i];
        let index = byte as usize;
        proof {
            lemma_occurrences_bound(bytes@.take(i as int), byte);
            lemma_table_total_update(table@, 256, index as int, (table[index as int] + 1) as u32);
            assert(bytes@.take(i + 1).drop_last() =~= bytes@.take(i as int));
        }
        let count = table[index];
        table.set(index, count + 1);
        i = i + 1;
    }
    proof {
        assert(bytes@.take(i as int) =~= bytes@);
        assert(table@ =~= frequency_table(bytes@));
    }
    table
}

/// Makes the queue of leaves for a frequency table: one leaf for each byte
/// value that occurs, in ascending order of byte value.
pub fn make_leaves(table: &Vec<u32>) -> (leaves: Vec<HuffmanNode>)
    requires
        table.len() == 256,
    ensures
        leaves@ == leaves_of(table@),
{
    let mut leaves: Vec<HuffmanNode> = Vec::new();
    let mut b: usize = 0;
    while b < 256
        invariant
            table.len() == 256,
            b <= 256,
            leaves@ == leaves_upto(table@, b as nat),
        decreases 256 - b,
    {
        if table[b] > 0 {
            leaves.push(HuffmanNode::new_leaf(b as u8, table[b]));
        }
        b = b + 1;
    }
    leaves
}

/// Writes the header for a frequency table with `count` distinct byte values.
pub fn write_header(table: &Vec<u32>, count: u8) -> (header: Vec<u8>)
    requires
        table.len() == 256,
        count == leaves_of(table@).len(),
    ensures
        header@ == header_bytes(table@),
{
    let mut header: Vec<u8> = Vec::new();
    header.push(count);
    let mut b: usize = 0;
    while b < 256
        invariant
            table.len() == 256,
            b <= 256,
            header@ == seq![count] + header_entries(table@, b as nat),
        decreases 256 - b,
    {
        let freq = table[b];
        if freq > 0 {
            let ghost before = header@;
            header.push(b as u8);
            header.push((freq / 0x100_0000) as u8);
            header.push((freq / 0x1_0000 % 256) as u8);
            header.push((freq / 0x100 % 256) as u8);
            header.push((freq % 256) as u8);
            assert(header@ =~= before + seq![b as u8] + be_bytes(freq));
            assert(header@ =~= seq![count] + header_entries(table@, (b + 1) as nat));
        }
        b = b + 1;
    }
    header
}

/// Fills a table of 256 codes from a tree: the code of each byte that has a
/// leaf below `node` becomes `code` followed by the path from `node` to that
/// leaf; the other entries stay as they are.
pub fn build_codes(node: &HuffmanNode, code: Vec<bool>, codes: &mut Vec<Vec<bool>>)
    requires
        old(codes).len() == 256,
    ensures
        final(codes).len() == 256,
        forall|b: int|
            0 <= b < 256 ==> #[trigger] final(codes)[b]@ == (match node.code_of(b as u8) {
                Some(path) => code@ + path,
                None => old(codes)[b]@,
            }),
    decreases node,
{
    match node {
        HuffmanNode::Leaf { byte, .. } => {
            let index = *byte as usize;
            assert(code@ + Seq::<bool>::empty() =~= code@);
            codes.set(index, code);
        },
        HuffmanNode::Internal { left, right, .. } => {
            let mut left_code = code.clone();
            assert(left_code@ =~= code@);
            left_code.push(false);
            build_codes(left, left_code, codes);
            let mut right_code = code;
            right_code.push(true);
            build_codes(right, right_code, codes);
            proof {
                assert forall|b: int| 0 <= b < 256 implies #[trigger] codes[b]@ == (
                match node.code_of(b as u8) {
                    Some(path) => code@ + path,
                    None => old(codes)[b]@,
                }) by {
                    match right.code_of(b as u8) {
                        Some(path) => {
                            assert(code@.push(true) + path =~= code@ + (seq![true] + path));
                        },
                        None => {
                            match left.code_of(b as u8) {
                                Some(path) => {
                                    assert(code@.push(false) + path =~= code@ + (seq![false]
                                        + path));
                                },
                                None => {},
                            }
                        },
                    }
                }
            }
        },
    }
}

/// Huffman-codes a byte string. The empty string codes to no bytes.
///
/// Fails with `InputTooLarge` where a frequency would not fit the four
/// bytes the header gives it, and with `AlphabetTooLarge` where all 256
/// byte values occur.
pub fn huffman_encode(bytes: &[u8]) -> (result: Result<Vec<u8>, KernelError>)
    ensures
        match result {
            Ok(coded) => bytes.len() <= u32::MAX && distinct_bytes(bytes@) <= 255 && coded@
                == huffman_encoding(bytes@),
            Err(e) => if bytes.len() > u32::MAX {
                e == KernelError::InputTooLarge
            } else {
                distinct_bytes(bytes@) > 255 && e == KernelError::AlphabetTooLarge
            },
        },
{
    if bytes.len() == 0 {
        proof {
            lemma_leaves_upto(frequency_table(bytes@), 256);
            lemma_table_total_zero(frequency_table(bytes@), 256);
            lemma_leaves_empty(frequency_table(bytes@), 256);
        }
        return Ok(Vec::new());
    }
    if bytes.len() > u32::MAX as usize {
        return Err(KernelError::InputTooLarge);
    }
    let table = count_frequencies(bytes);
    let leaves = make_leaves(&table);
    proof {
        lemma_leaves_upto(table@, 256);
        lemma_occurrences_positive(bytes@, 0);
    }
    if leaves.len() > 255 {
        return Err(KernelError::AlphabetTooLarge);
    }
    let count = leaves.len() as u8;
    let root = build_tree(leaves);

    let mut codes: Vec<Vec<bool>> = Vec::new();
    while codes.len() < 256
        invariant
            codes.len() <= 256,
            forall|b: int| 0 <= b < codes.len() ==> #[trigger] codes[b]@ == Seq::<bool>::empty(),
        decreases 256 - codes.len(),
    {
        codes.push(Vec::new());
    }
    build_codes(&root, Vec::new(), &mut codes);
    assert forall|b: int| 0 <= b < 256 implies #[trigger] codes[b]@ == code_or_empty(
        root,
        b as u8,
    ) by {
        match root.code_of(b as u8) {
            Some(path) => {
                assert(Seq::<bool>::empty() + path =~= path);
            },
            None => {},
        }
    }

    let mut encoded_bits: Vec<bool> = Vec::new();
    let mut i: usize = 0;
    while i < bytes.len()
        invariant
            i <= bytes.len(),
            codes.len() == 256,
            forall|b: int| 0 <= b < 256 ==> #[trigger] codes[b]@ == code_or_empty(root, b as u8),
            encoded_bits@ == encode_bits(root, bytes@.take(i as int)),
        decreases bytes.len() - i,
    {
        let code = &codes[bytes[i] as usize];
        let ghost before = encoded_bits@;
        encoded_bits.extend_from_slice(code.as_slice());
        proof {
            assert(bytes@.take(i + 1).drop_last() =~= bytes@.take(i as int));
            assert(encoded_bits@ =~= before + code@);
        }
        i = i + 1;
    }
    assert(bytes@.take(i as int) =~= bytes@);
    let mut encoded_bytes = pack(&encoded_bits);
    let mut compressed = write_header(&table, count);
    compressed.append(&mut encoded_bytes);
    Ok(compressed)
}

/// A table without a positive entry has no leaves.
pub proof fn lemma_leaves_empty(table: Seq<u32>, n: nat)
    requires
        n <= table.len(),
        forall|b: int| 0 <= b < n ==> table[b] == 0,
    ensures
        leaves_upto(table, n).len() == 0,
    decreases n,
{
    if n > 0 {
        lemma_leaves_empty(table, (n - 1) as nat);
    }
}

/// Number of entries that the header of `bytes` announces.
pub open spec fn entry_count(bytes: Seq<u8>) -> int {
    bytes[0] as int
}

/// Length of the header of `bytes`.
pub open spec fn header_len(bytes: Seq<u8>) -> int {
    1 + 5 * entry_count(bytes)
}

/// The byte value of header entry `k`.
pub open spec fn entry_byte(bytes: Seq<u8>, k: int) -> u8 {
    bytes[1 + 5 * k]
}

/// The frequency of header entry `k`.
pub open spec fn entry_freq(bytes: Seq<u8>, k: int) -> u32 {
    be_value(bytes[2 + 5 * k], bytes[3 + 5 * k], bytes[4 + 5 * k], bytes[5 + 5 * k])
}

/// The frequency table that the first `k` header entries give.
pub open spec fn table_after(bytes: Seq<u8>, k: nat) -> Seq<u32>
    decreases k,
{
    if k == 0 {
        Seq::new(256, |b: int| 0u32)
    } else {
        table_after(bytes, (k - 1) as nat).update(
            entry_byte(bytes, k - 1) as int,
            entry_freq(bytes, k - 1),
        )
    }
}

/// The frequency table that the header of `bytes` gives.
pub open spec fn header_table(bytes: Seq<u8>) -> Seq<u32> {
    table_after(bytes, entry_count(bytes) as nat)
}

/// Whether `bytes` starts with a header that a tree can be built from: at
/// least one entry, all entries present, each frequency positive, no byte
/// value twice, and the frequencies summing to a 32-bit value.
pub open spec fn header_well_formed(bytes: Seq<u8>) -> bool {
    &&& bytes.len() >= 1
    &&& entry_count(bytes) >= 1
    &&& bytes.len() >= header_len(bytes)
    &&& forall|k: int| 0 <= k < entry_count(bytes) ==> entry_freq(bytes, k) > 0
    &&& forall|j: int, k: int|
        0 <= j < k < entry_count(bytes) ==> entry_byte(bytes, j) != entry_byte(bytes, k)
    &&& table_total(header_table(bytes), 256) <= u32::MAX
}

/// `prefix` and then what follows, where anything follows.
pub open spec fn prefixed(prefix: Seq<u8>, rest: Option<Seq<u8>>) -> Option<Seq<u8>> {
    match rest {
        Some(bytes) => Some(prefix + bytes),
        None => None,
    }
}

/// The `count` bytes that a walk of the tree emits: it starts at `node`,
/// takes the left branch on a zero bit and the right branch on a one bit,
/// and at each leaf emits the leaf's byte and goes back to `root`. The
/// walk stops when it has emitted `count` bytes, whatever bits are left;
/// where the bits end before that, it emits nothing at all.
pub open spec fn decode_symbols(
    root: HuffmanNode,
    node: HuffmanNode,
    bits: Seq<bool>,
    count: nat,
) -> Option<Seq<u8>>
    decreases bits.len(),
{
    if count == 0 {
        Some(Seq::empty())
    } else if bits.len() == 0 {
        None
    } else {
        match node {
            HuffmanNode::Leaf { .. } => None,
            HuffmanNode::Internal { left, right, .. } => {
                let next = if bits[0] {
                    *right
                } else {
                    *left
                };
                match next {
                    HuffmanNode::Leaf { byte, .. } => prefixed(
                        seq![byte],
                        decode_symbols(root, root, bits.skip(1), (count - 1) as nat),
                    ),
                    HuffmanNode::Internal { .. } => decode_symbols(
                        root,
                        next,
                        bits.skip(1),
                        count,
                    ),
                }
            },
        }
    }
}

/// The number of bytes that Huffman-coded `bytes` stand for: the sum of
/// the frequencies in the header.
pub open spec fn symbol_total(bytes: Seq<u8>) -> nat {
    table_total(header_table(bytes), 256)
}

/// What Huffman-coded `bytes` decode to: the empty string for no bytes,
/// and nothing where the header is malformed. Else the header tells how
/// many bytes there are. Where it names one byte value only, they are all
/// that byte; where it names more, they are what a walk of the header's
/// tree over the bits after the header emits, and nothing where those
/// bits end too early.
pub open spec fn huffman_decoding(bytes: Seq<u8>) -> Option<Seq<u8>> {
    if bytes.len() == 0 {
        Some(Seq::empty())
    } else if !header_well_formed(bytes) {
        None
    } else {
        let tree = huffman_tree(leaves_of(header_table(bytes)));
        match tree {
            HuffmanNode::Leaf { byte, .. } => Some(repeated(byte, symbol_total(bytes))),
            HuffmanNode::Internal { .. } => decode_symbols(
                tree,
                tree,
                unpack_bits(bytes.skip(header_len(bytes))),
                symbol_total(bytes),
            ),
        }
    }
}

/// Reads the frequency table from the header of Huffman-coded bytes, and
/// the sum of its frequencies.
pub fn read_header(bytes: &[u8]) -> (result: Option<(Vec<u32>, u32)>)
    requires
        bytes.len() > 0,
    ensures
        match result {
            Some((table, total)) => header_well_formed(bytes@) && table@ == header_table(bytes@)
                && table.len() == 256 && total == symbol_total(bytes@),
            None => !header_well_formed(bytes@),
        },
{
    let count = bytes[0] as usize;
    if count == 0 || bytes.len() < 1 + 5 * count {
        return None;
    }
    let mut table: Vec<u32> = vec![0u32; 256];
    let mut total: u64 = 0;
    let mut k: usize = 0;
    proof {
        lemma_table_total_zero(table@, 256);
        assert(table@ =~= table_after(bytes@, 0));
    }
    while k < count
        invariant
            count == entry_count(bytes@),
            bytes.len() >= 1 + 5 * count,
            k <= count <= 255,
            table.len() == 256,
            table@ == table_after(bytes@, k as nat),
            total == table_total(table@, 256),
            total <= k * u32::MAX,
            forall|j: int| 0 <= j < k ==> entry_freq(bytes@, j) > 0,
            forall|i: int, j: int|
                0 <= i < j < k ==> entry_byte(bytes@, i) != entry_byte(bytes@, j),
            forall|b: int|
                0 <= b < 256 && table[b] > 0 ==> exists|j: int|
                    0 <= j < k && #[trigger] entry_byte(bytes@, j) == b,
        decreases count - k,
    {
        let byte = bytes[1 + 5 * k];
        let b0 = bytes[2 + 5 * k];
        let b1 = bytes[3 + 5 * k];
        let b2 = bytes[4 + 5 * k];
        let b3 = bytes[5 + 5 * k];
        let freq: u32 = (b0 as u32) * 0x100_0000 + (b1 as u32) * 0x1_0000 + (b2 as u32) * 0x100 + (
        b3 as u32);
        assert(freq == entry_freq(bytes@, k as int));
        assert(byte == entry_byte(bytes@, k as int));
        if freq == 0 {
            return None;
        }
        let index = byte as usize;
        if table[index] != 0 {
            proof {
                let j = choose|j: int| 0 <= j < k && #[trigger] entry_byte(bytes@, j) == index;
                assert(entry_byte(bytes@, j) == entry_byte(bytes@, k as int));
            }
            return None;
        }
        proof {
            lemma_table_total_update(table@, 256, index as int, freq);
            let ghost_table = table@.update(index as int, freq);
            assert forall|b: int| 0 <= b < 256 && ghost_table[b] > 0 implies exists|j: int|
                0 <= j < k + 1 && #[trigger] entry_byte(bytes@, j) == b by {
                if b == index {
                    assert(entry_byte(bytes@, k as int) == b);
                } else {
                    let j = choose|j: int| 0 <= j < k && #[trigger] entry_byte(bytes@, j) == b;
                    assert(entry_byte(bytes@, j) == b);
                }
            }
            assert forall|i: int, j: int| 0 <= i < j < k + 1 implies entry_byte(bytes@, i)
                != entry_byte(bytes@, j) by {
                if j == k {
                    if entry_byte(bytes@, i) == entry_byte(bytes@, j) {
                        assert(table[index as int] == 0);
                        lemma_table_after_positive(bytes@, k as nat, i);
                    }
                }
            }
        }
        table.set(index, freq);
        total = total + freq as u64;
        k = k + 1;
    }
    if total > u32::MAX as u64 {
        return None;
    }
    Some((table, total as u32))
}

/// After `k` entries with positive frequencies, the table is positive at
/// the byte value of each of them.
pub proof fn lemma_table_after_positive(bytes: Seq<u8>, k: nat, i: int)
    requires
        0 <= i < k,
        forall|j: int| 0 <= j < k ==> entry_freq(bytes, j) > 0,
    ensures
        table_after(bytes, k)[entry_byte(bytes, i) as int] > 0,
    decreases k,
{
    lemma_table_after_len(bytes, k);
    lemma_table_after_len(bytes, (k - 1) as nat);
    if i < k - 1 {
        lemma_table_after_positive(bytes, (k - 1) as nat, i);
    }
}

/// A table read from a header has 256 entries.
pub proof fn lemma_table_after_len(bytes: Seq<u8>, k: nat)
    ensures
        table_after(bytes, k).len() == 256,
    decreases k,
{
    if k > 0 {
        lemma_table_after_len(bytes, (k - 1) as nat);
    }
}

/// Decodes Huffman-coded bytes. No bytes decode to the empty string. The
/// decoder emits as many bytes as the frequencies in the header sum to,
/// and passes over the bits that are left.
///
/// Fails with `InvalidHuffmanData` where the header is malformed, and
/// where the code bits end before all bytes are emitted.
pub fn huffman_decode(bytes: &[u8]) -> (result: Result<Vec<u8>, KernelError>)
    ensures
        match result {
            Ok(decoded) => huffman_decoding(bytes@) == Some(decoded@),
            Err(e) => huffman_decoding(bytes@) is None && e == KernelError::InvalidHuffmanData,
        },
{
    if bytes.len() == 0 {
        return Ok(Vec::new());
    }
    let (table, total) = match read_header(bytes) {
        Some(header) => header,
        None => {
            return Err(KernelError::InvalidHuffmanData);
        },
    };
    let start: usize = 1 + 5 * (bytes[0] as usize);
    let leaves = make_leaves(&table);
    proof {
        lemma_leaves_upto(table@, 256);
        lemma_table_after_positive(bytes@, entry_count(bytes@) as nat, 0);
    }
    let root = build_tree(leaves);
    let mut decoded: Vec<u8> = Vec::new();
    match &root {
        HuffmanNode::Leaf { byte, .. } => {
            let mut emitted: u32 = 0;
            while emitted < total
                invariant
                    emitted <= total,
                    decoded@ == repeated(*byte, emitted as nat),
                decreases total - emitted,
            {
                decoded.push(*byte);
                emitted = emitted + 1;
                assert(decoded@ =~= repeated(*byte, emitted as nat));
            }
            return Ok(decoded);
        },
        HuffmanNode::Internal { .. } => {},
    }
    let ghost payload = bytes@.skip(start as int);
    let ghost bits = unpack_bits(payload);
    let ghost whole = decode_symbols(root, root, bits, total as nat);

    let mut remaining: u32 = total;
    let mut node: &HuffmanNode = &root;
    let mut j: usize = start;
    proof {
        assert(bits.skip(0) =~= bits);
        lemma_prefixed_empty(whole);
    }
    while j < bytes.len() && remaining > 0
        invariant
            start <= j <= bytes.len(),
            payload == bytes@.skip(start as int),
            bits == unpack_bits(payload),
            root is Internal,
            *node is Internal,
            whole == decode_symbols(root, root, bits, total as nat),
            whole == prefixed(
                decoded@,
                decode_symbols(root, *node, bits.skip(8 * (j - start)), remaining as nat),
            ),
        decreases bytes.len() - j,
    {
        let byte = bytes[j];
        let mut bit_idx: u8 = 0;
        while bit_idx < 8 && remaining > 0
            invariant
                start <= j < bytes.len(),
                byte == bytes[j as int],
                payload == bytes@.skip(start as int),
                bits == unpack_bits(payload),
                bit_idx <= 8,
                root is Internal,
                *node is Internal,
                whole == prefixed(
                    decoded@,
                    decode_symbols(
                        root,
                        *node,
                        bits.skip(8 * (j - start) + bit_idx),
                        remaining as nat,
                    ),
                ),
            decreases 8 - bit_idx,
        {
            let bit = (byte >> (7 - bit_idx)) & 1 == 1;
            let ghost pos = 8 * (j - start) + bit_idx;
            let ghost rest = bits.skip(pos);
            proof {
                assert(rest.len() > 0);
                assert(rest[0] == bits[pos]);
                assert(pos / 8 == j - start && pos % 8 == bit_idx as int);
                assert(payload[pos / 8] == byte);
                assert(bit == msb_bit(byte, bit_idx as int));
                assert(rest.skip(1) =~= bits.skip(pos + 1));
            }
            match node {
                HuffmanNode::Internal { left, right, .. } => {
                    let next: &HuffmanNode = if bit {
                        right
                    } else {
                        left
                    };
                    match next {
                        HuffmanNode::Leaf { byte: symbol, .. } => {
                            let ghost before = decoded@;
                            decoded.push(*symbol);
                            remaining = remaining - 1;
                            proof {
                                lemma_prefixed_twice(
                                    before,
                                    seq![*symbol],
                                    decode_symbols(
                                        root,
                                        root,
                                        bits.skip(pos + 1),
                                        remaining as nat,
                                    ),
                                );
                                assert(before + seq![*symbol] =~= decoded@);
                            }
                            node = &root;
                        },
                        HuffmanNode::Internal { .. } => {
                            node = next;
                        },
                    }
                },
                HuffmanNode::Leaf { .. } => {},
            }
            bit_idx = bit_idx + 1;
        }
        proof {
            if remaining == 0 {
                lemma_prefixed_empty(Some(decoded@));
            }
        }
        j = j + 1;
    }
    if remaining > 0 {
        proof {
            assert(bits.skip(8 * (j - start)).len() == 0);
        }
        return Err(KernelError::InvalidHuffmanData);
    }
    proof {
        assert(decoded@ + Seq::<u8>::empty() =~= decoded@);
    }
    Ok(decoded)
}

/// Nothing before what follows is what follows, and a string before
/// nothing more is that string.
pub proof fn lemma_prefixed_empty(rest: Option<Seq<u8>>)
    ensures
        prefixed(Seq::empty(), rest) == rest,
        rest matches Some(bytes) ==> prefixed(bytes, Some(Seq::empty())) == rest,
{
    match rest {
        Some(bytes) => {
            assert(Seq::<u8>::empty() + bytes =~= bytes);
            assert(bytes + Seq::<u8>::empty() =~= bytes);
        },
        None => {},
    }
}

/// Two strings, one before the other, before what follows.
pub proof fn lemma_prefixed_twice(first: Seq<u8>, second: Seq<u8>, rest: Option<Seq<u8>>)
    ensures
        prefixed(first, prefixed(second, rest)) == prefixed(first + second, rest),
{
    match rest {
        Some(bytes) => {
            assert(first + (second + bytes) =~= (first + second) + bytes);
        },
        None => {},
    }
}

/// No byte of valid UTF-8 is above `0xf7`.
pub proof fn lemma_utf8_byte_range(bytes: Seq<u8>, i: int)
    requires
        valid_utf8(bytes),
        0 <= i < bytes.len(),
    ensures
        bytes[i] <= 0xf7,
    decreases bytes.len(),
{
    let width = vstd::utf8::length_of_first_scalar(bytes);
    if i >= width {
        let rest = vstd::utf8::pop_first_scalar(bytes);
        assert(rest[i - width] == bytes[i]);
        lemma_utf8_byte_range(rest, i - width);
    }
}

/// A byte that does not stand in a string occurs in it no times.
pub proof fn lemma_occurrences_absent(s: Seq<u8>, byte: u8)
    requires
        forall|i: int| 0 <= i < s.len() ==> s[i] != byte,
    ensures
        occurrences(s, byte) == 0,
    decreases s.len(),
{
    if s.len() > 0 {
        lemma_occurrences_absent(s.drop_last(), byte);
    }
}

/// The UTF-8 bytes of a text have fewer than 256 distinct values.
pub proof fn lemma_text_alphabet(text: Seq<char>)
    ensures
        distinct_bytes(vstd::utf8::encode_utf8(text)) <= 255,
{
    broadcast use vstd::utf8::encode_utf8_valid_utf8;

    let bytes = vstd::utf8::encode_utf8(text);
    assert forall|i: int| 0 <= i < bytes.len() implies bytes[i] != 0xffu8 by {
        lemma_utf8_byte_range(bytes, i);
    }
    lemma_occurrences_absent(bytes, 0xff);
    let table = frequency_table(bytes);
    assert(table[255] == 0);
    lemma_leaves_upto(table, 255);
    assert(leaves_upto(table, 256) == leaves_upto(table, 255));
}

/// Huffman-codes a text by its UTF-8 bytes. The empty text codes to no
/// bytes.
///
/// Fails with `InputTooLarge` where a frequency would not fit the four
/// bytes the header gives it.
pub fn huffman_compress(text: &str) -> (result: Result<Vec<u8>, KernelError>)
    ensures
        match result {
            Ok(coded) => text.spec_bytes().len() <= u32::MAX && coded@ == huffman_encoding(
                text.spec_bytes(),
            ),
            Err(e) => text.spec_bytes().len() > u32::MAX && e == KernelError::InputTooLarge,
        },
{
    proof {
        lemma_text_alphabet(text@);
    }
    huffman_encode(text.as_bytes())
}

/// Decodes Huffman-coded bytes to text. No bytes decode to the empty text.
///
/// Fails with `InvalidHuffmanData` where the header is malformed or the
/// code bits end before all bytes are emitted, and with `InvalidUtf8` where
/// the decoded bytes are not UTF-8.
pub fn huffman_decompress(bytes: &[u8]) -> (result: Result<String, KernelError>)
    ensures
        match result {
            Ok(text) => huffman_decoding(bytes@) matches Some(decoded) && valid_utf8(decoded)
                && text@ == decode_utf8(decoded),
            Err(e) => match huffman_decoding(bytes@) {
                None => e == KernelError::InvalidHuffmanData,
                Some(decoded) => !valid_utf8(decoded) && e == KernelError::InvalidUtf8,
            },
        },
{
    match huffman_decode(bytes) {
        Ok(decoded) => match string_from_utf8(decoded) {
            Some(text) => Ok(text),
            None => Err(KernelError::InvalidUtf8),
        },
        Err(e) => Err(e),
    }
}

} // verus!
