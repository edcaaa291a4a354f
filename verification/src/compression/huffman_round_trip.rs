//! Decoding a Huffman-coded string gives the string back: the header
//! reads back as the frequency table, the walk of the tree emits each byte
//! for its code, and the decoder stops before the padding.

use vstd::prelude::*;
use crate::compression::bits::{lemma_unpack_pack, pack_bits, padding_len};
use crate::compression::huffman::{
    be_bytes, be_value, code_or_empty, code_tree, decode_symbols, distinct_bytes, encode_bits,
    entry_byte, entry_count, entry_freq, frequency_table, header_bytes, header_entries,
    header_len, header_table, header_well_formed, huffman_decoding, huffman_encoding, leaves_of,
    leaves_upto, lemma_leaves_upto, lemma_occurrences_bound, lemma_occurrences_positive,
    lemma_prefixed_empty, lemma_prefixed_twice, lemma_table_after_len, lemma_table_total_update,
    lemma_table_total_zero, lemma_text_alphabet, prefixed, symbol_total, table_after,
    table_total,
};
use crate::compression::rle::repeated;
use crate::compression::tree::{
    huffman_tree, lemma_merge_step_len, lemma_min_index, merge_step, merged_node, min_index,
    HuffmanNode,
};

verus! {

/// A tree has a code for exactly the bytes it has a leaf for.
pub proof fn lemma_code_of_some(tree: HuffmanNode, byte: u8)
    ensures
        tree.code_of(byte) is Some <==> tree.has_leaf(byte),
    decreases tree,
{
    match tree {
        HuffmanNode::Leaf { .. } => {},
        HuffmanNode::Internal { left, right, .. } => {
            lemma_code_of_some(*left, byte);
            lemma_code_of_some(*right, byte);
        },
    }
}

/// Merging keeps every leaf: a byte that some node of the queue has a leaf
/// for has a leaf in the tree that is built.
pub proof fn lemma_tree_keeps_leaves(queue: Seq<HuffmanNode>, i: int, byte: u8)
    requires
        0 <= i < queue.len(),
        queue[i].has_leaf(byte),
    ensures
        huffman_tree(queue).has_leaf(byte),
    decreases queue.len(),
{
    if queue.len() > 1 {
        lemma_min_index(queue);
        let a = min_index(queue);
        let rest = queue.remove(a);
        lemma_min_index(rest);
        let b = min_index(rest);
        let next = merge_step(queue);
        lemma_merge_step_len(queue);
        let merged = merged_node(queue);
        assert(next[next.len() - 1] == merged);
        if i == a {
            assert(merged.has_leaf(byte));
            lemma_tree_keeps_leaves(next, next.len() - 1, byte);
        } else {
            let i1 = if i < a {
                i
            } else {
                i - 1
            };
            assert(rest[i1] == queue[i]);
            if i1 == b {
                assert(merged.has_leaf(byte));
                lemma_tree_keeps_leaves(next, next.len() - 1, byte);
            } else {
                let i2 = if i1 < b {
                    i1
                } else {
                    i1 - 1
                };
                assert(rest.remove(b)[i2] == rest[i1]);
                assert(next[i2] == queue[i]);
                lemma_tree_keeps_leaves(next, i2, byte);
            }
        }
    }
}

/// Walking the code of a byte from a branching node emits that byte and
/// leaves the walk at the root, with one byte fewer to emit.
pub proof fn lemma_decode_code(
    root: HuffmanNode,
    node: HuffmanNode,
    byte: u8,
    rest: Seq<bool>,
    more: nat,
)
    requires
        node is Internal,
        node.has_leaf(byte),
    ensures
        decode_symbols(root, node, code_or_empty(node, byte) + rest, more + 1) == prefixed(
            seq![byte],
            decode_symbols(root, root, rest, more),
        ),
    decreases node,
{
    lemma_code_of_some(node, byte);
    let code = code_or_empty(node, byte);
    let bits = code + rest;
    match node {
        HuffmanNode::Leaf { .. } => {},
        HuffmanNode::Internal { left, right, .. } => {
            lemma_code_of_some(*left, byte);
            lemma_code_of_some(*right, byte);
            let (next, tail) = match right.code_of(byte) {
                Some(path) => (*right, path),
                None => (*left, left.code_of(byte)->Some_0),
            };
            assert(code.len() > 0);
            assert(bits[0] == code[0]);
            assert(bits.skip(1) =~= tail + rest);
            assert(next.has_leaf(byte));
            match next {
                HuffmanNode::Leaf { byte: b, .. } => {
                    assert(tail =~= Seq::<bool>::empty());
                    assert(tail + rest =~= rest);
                },
                HuffmanNode::Internal { .. } => {
                    assert(code_or_empty(next, byte) == tail);
                    lemma_decode_code(root, next, byte, rest, more);
                },
            }
        },
    }
}

/// Walking the codes of a string emits the string and leaves the walk at
/// the root, with as many bytes fewer to emit as the string is long.
pub proof fn lemma_decode_encoded(root: HuffmanNode, s: Seq<u8>, rest: Seq<bool>, more: nat)
    requires
        root is Internal,
        forall|i: int| 0 <= i < s.len() ==> root.has_leaf(s[i]),
    ensures
        decode_symbols(root, root, encode_bits(root, s) + rest, s.len() + more) == prefixed(
            s,
            decode_symbols(root, root, rest, more),
        ),
    decreases s.len(),
{
    if s.len() == 0 {
        assert(encode_bits(root, s) + rest =~= rest);
        assert(s =~= Seq::<u8>::empty());
        lemma_prefixed_empty(decode_symbols(root, root, rest, more));
    } else {
        let init = s.drop_last();
        let last = s.last();
        let code = code_or_empty(root, last);
        assert(encode_bits(root, s) + rest =~= encode_bits(root, init) + (code + rest));
        lemma_decode_encoded(root, init, code + rest, more + 1);
        lemma_decode_code(root, root, last, rest, more);
        lemma_prefixed_twice(init, seq![last], decode_symbols(root, root, rest, more));
        assert(init + seq![last] =~= s);
    }
}

/// The four bytes of a value give the value back.
pub proof fn lemma_be_round_trip(value: u32)
    ensures
        be_bytes(value).len() == 4,
        be_value(be_bytes(value)[0], be_bytes(value)[1], be_bytes(value)[2], be_bytes(value)[3])
            == value,
{
}

/// The frequencies of a string sum to its length.
pub proof fn lemma_frequency_total(s: Seq<u8>)
    requires
        s.len() <= u32::MAX,
    ensures
        table_total(frequency_table(s), 256) == s.len(),
    decreases s.len(),
{
    if s.len() == 0 {
        lemma_table_total_zero(frequency_table(s), 256);
    } else {
        let init = s.drop_last();
        let last = s.last();
        lemma_frequency_total(init);
        lemma_occurrences_bound(s, last);
        let before = frequency_table(init);
        lemma_table_total_update(before, 256, last as int, (before[last as int] + 1) as u32);
        assert forall|b: int| 0 <= b < 256 implies frequency_table(s)[b] == before.update(
            last as int,
            (before[last as int] + 1) as u32,
        )[b] by {
            lemma_occurrences_bound(s, b as u8);
        }
        assert(frequency_table(s) =~= before.update(
            last as int,
            (before[last as int] + 1) as u32,
        ));
    }
}

/// The header entries are the leaves in order: five bytes for each, the
/// byte value and then its frequency.
pub proof fn lemma_header_entries(table: Seq<u32>, n: nat)
    requires
        n <= 256,
        table.len() == 256,
    ensures
        header_entries(table, n).len() == 5 * leaves_upto(table, n).len(),
        forall|k: int|
            0 <= k < leaves_upto(table, n).len() ==> {
                let leaf = #[trigger] leaves_upto(table, n)[k];
                let entries = header_entries(table, n);
                &&& entries[5 * k] == leaf->Leaf_byte
                &&& be_value(
                    entries[5 * k + 1],
                    entries[5 * k + 2],
                    entries[5 * k + 3],
                    entries[5 * k + 4],
                ) == leaf->Leaf_freq
            },
        forall|j: int, k: int|
            0 <= j < k < leaves_upto(table, n).len() ==> (#[trigger] leaves_upto(
                table,
                n,
            )[j])->Leaf_byte < (#[trigger] leaves_upto(table, n)[k])->Leaf_byte,
    decreases n,
{
    if n > 0 {
        lemma_header_entries(table, (n - 1) as nat);
        lemma_leaves_upto(table, (n - 1) as nat);
        lemma_leaves_upto(table, n);
        let before = leaves_upto(table, (n - 1) as nat);
        let now = leaves_upto(table, n);
        let entries_before = header_entries(table, (n - 1) as nat);
        let entries = header_entries(table, n);
        if table[n - 1] > 0 {
            lemma_be_round_trip(table[n - 1]);
            assert forall|k: int| 0 <= k < now.len() implies {
                let leaf = #[trigger] now[k];
                &&& entries[5 * k] == leaf->Leaf_byte
                &&& be_value(
                    entries[5 * k + 1],
                    entries[5 * k + 2],
                    entries[5 * k + 3],
                    entries[5 * k + 4],
                ) == leaf->Leaf_freq
            } by {
                if k < before.len() {
                    assert(now[k] == before[k]);
                    assert(entries[5 * k] == entries_before[5 * k]);
                    assert(entries[5 * k + 1] == entries_before[5 * k + 1]);
                    assert(entries[5 * k + 2] == entries_before[5 * k + 2]);
                    assert(entries[5 * k + 3] == entries_before[5 * k + 3]);
                    assert(entries[5 * k + 4] == entries_before[5 * k + 4]);
                } else {
                    let f = table[n - 1];
                    assert(entries[5 * k] == (n - 1) as u8);
                    assert(entries[5 * k + 1] == be_bytes(f)[0]);
                    assert(entries[5 * k + 2] == be_bytes(f)[1]);
                    assert(entries[5 * k + 3] == be_bytes(f)[2]);
                    assert(entries[5 * k + 4] == be_bytes(f)[3]);
                }
            }
            assert forall|j: int, k: int| 0 <= j < k < now.len() implies (#[trigger] now[j])->Leaf_byte
                < (#[trigger] now[k])->Leaf_byte by {
                assert(now[j] == before[j]);
                if k < before.len() {
                    assert(now[k] == before[k]);
                }
            }
        }
    }
}

/// The header written for a table is well formed and reads back as the
/// table, whatever follows it.
pub proof fn lemma_header_round_trip(table: Seq<u32>, payload: Seq<u8>)
    requires
        table.len() == 256,
        1 <= leaves_of(table).len() <= 255,
        table_total(table, 256) <= u32::MAX,
    ensures
        header_well_formed(header_bytes(table) + payload),
        header_table(header_bytes(table) + payload) == table,
        (header_bytes(table) + payload).skip(header_len(header_bytes(table) + payload))
            == payload,
{
    let leaves = leaves_of(table);
    let entries = header_entries(table, 256);
    let coded = header_bytes(table) + payload;
    let count = leaves.len() as int;
    lemma_header_entries(table, 256);
    lemma_leaves_upto(table, 256);
    assert(coded[0] == leaves.len() as u8);
    assert(entry_count(coded) == count);
    assert(header_len(coded) == header_bytes(table).len());
    assert forall|k: int| 0 <= k < count implies entry_byte(coded, k) == (
    #[trigger] leaves[k])->Leaf_byte && entry_freq(coded, k) == leaves[k]->Leaf_freq by {
        assert(coded[1 + 5 * k] == entries[5 * k]);
        assert(coded[2 + 5 * k] == entries[5 * k + 1]);
        assert(coded[3 + 5 * k] == entries[5 * k + 2]);
        assert(coded[4 + 5 * k] == entries[5 * k + 3]);
        assert(coded[5 + 5 * k] == entries[5 * k + 4]);
    }
    assert forall|k: int| 0 <= k < count implies entry_freq(coded, k) > 0 by {
        assert(entry_freq(coded, k) == (#[trigger] leaves[k])->Leaf_freq);
    }
    assert forall|j: int, k: int| 0 <= j < k < count implies entry_byte(coded, j) != entry_byte(
        coded,
        k,
    ) by {
        assert(entry_byte(coded, j) == (#[trigger] leaves[j])->Leaf_byte);
        assert(entry_byte(coded, k) == (#[trigger] leaves[k])->Leaf_byte);
    }
    lemma_table_read_back(table, coded, count as nat);
    lemma_table_after_len(coded, count as nat);
    assert forall|b: int| 0 <= b < 256 implies table_after(coded, count as nat)[b] == table[b] by {
        if table[b] > 0 {
            let k = choose|k: int|
                0 <= k < leaves.len() && #[trigger] leaves[k] == (HuffmanNode::Leaf {
                    byte: b as u8,
                    freq: table[b],
                });
            assert(leaves[k]->Leaf_byte == b);
        } else {
            if exists|j: int| 0 <= j < count && (#[trigger] leaves[j])->Leaf_byte == b {
                let j = choose|j: int| 0 <= j < count && (#[trigger] leaves[j])->Leaf_byte == b;
                assert(leaves[j]->Leaf_freq > 0);
            }
        }
    }
    assert(table_after(coded, count as nat) =~= table);
    assert(coded.skip(header_len(coded)) =~= payload);
}

/// After the first `k` entries of a written header, the table read holds
/// the frequency of each of the first `k` leaves, and zero elsewhere.
proof fn lemma_table_read_back(table: Seq<u32>, coded: Seq<u8>, k: nat)
    requires
        table.len() == 256,
        k <= leaves_of(table).len(),
        forall|j: int|
            0 <= j < leaves_of(table).len() ==> entry_byte(coded, j) == (#[trigger] leaves_of(
                table,
            )[j])->Leaf_byte && entry_freq(coded, j) == leaves_of(table)[j]->Leaf_freq,
        forall|i: int, j: int|
            0 <= i < j < leaves_of(table).len() ==> (#[trigger] leaves_of(table)[i])->Leaf_byte != (
            #[trigger] leaves_of(table)[j])->Leaf_byte,
    ensures
        forall|b: int|
            0 <= b < 256 ==> #[trigger] table_after(coded, k)[b] == (if exists|j: int|
                0 <= j < k && (#[trigger] leaves_of(table)[j])->Leaf_byte == b {
                let j = choose|j: int|
                    0 <= j < k && (#[trigger] leaves_of(table)[j])->Leaf_byte == b;
                leaves_of(table)[j]->Leaf_freq
            } else {
                0u32
            }),
    decreases k,
{
    let leaves = leaves_of(table);
    lemma_table_after_len(coded, k);
    if k > 0 {
        lemma_table_read_back(table, coded, (k - 1) as nat);
        lemma_table_after_len(coded, (k - 1) as nat);
        let before = table_after(coded, (k - 1) as nat);
        assert forall|b: int| 0 <= b < 256 implies #[trigger] table_after(coded, k)[b] == (
        if exists|j: int| 0 <= j < k && (#[trigger] leaves[j])->Leaf_byte == b {
            let j = choose|j: int| 0 <= j < k && (#[trigger] leaves[j])->Leaf_byte == b;
            leaves[j]->Leaf_freq
        } else {
            0u32
        }) by {
            let last = leaves[k - 1];
            if last->Leaf_byte == b {
                assert(exists|j: int| 0 <= j < k && (#[trigger] leaves[j])->Leaf_byte == b);
                let j = choose|j: int| 0 <= j < k && (#[trigger] leaves[j])->Leaf_byte == b;
                assert(j == k - 1) by {
                    if j < k - 1 {
                        assert(leaves[j]->Leaf_byte != leaves[k - 1]->Leaf_byte);
                    }
                }
            } else {
                assert(table_after(coded, k)[b] == before[b]);
                if exists|j: int| 0 <= j < k - 1 && (#[trigger] leaves[j])->Leaf_byte == b {
                    let j0 = choose|j: int|
                        0 <= j < k - 1 && (#[trigger] leaves[j])->Leaf_byte == b;
                    assert(exists|j: int| 0 <= j < k && (#[trigger] leaves[j])->Leaf_byte == b);
                    let j1 = choose|j: int| 0 <= j < k && (#[trigger] leaves[j])->Leaf_byte == b;
                    assert(j0 == j1) by {
                        if j0 < j1 {
                            assert(leaves[j0]->Leaf_byte != leaves[j1]->Leaf_byte);
                        }
                        if j1 < j0 {
                            assert(leaves[j1]->Leaf_byte != leaves[j0]->Leaf_byte);
                        }
                    }
                } else {
                    if exists|j: int| 0 <= j < k && (#[trigger] leaves[j])->Leaf_byte == b {
                        let j1 = choose|j: int|
                            0 <= j < k && (#[trigger] leaves[j])->Leaf_byte == b;
                        assert(j1 < k - 1);
                        assert(false);
                    }
                }
            }
        }
    }
}

/// Each byte of a string has a leaf in the tree that codes the string.
proof fn lemma_string_has_leaves(s: Seq<u8>)
    requires
        s.len() <= u32::MAX,
    ensures
        forall|i: int| 0 <= i < s.len() ==> code_tree(s).has_leaf(#[trigger] s[i]),
{
    let table = frequency_table(s);
    let leaves = leaves_of(table);
    let tree = code_tree(s);
    lemma_leaves_upto(table, 256);
    assert forall|i: int| 0 <= i < s.len() implies tree.has_leaf(#[trigger] s[i]) by {
        lemma_occurrences_positive(s, i);
        lemma_occurrences_bound(s, s[i]);
        let b = s[i] as int;
        assert(table[b] > 0);
        let k = choose|k: int|
            0 <= k < leaves.len() && #[trigger] leaves[k] == (HuffmanNode::Leaf {
                byte: b as u8,
                freq: table[b],
            });
        assert(leaves[k].has_leaf(s[i]));
        lemma_tree_keeps_leaves(leaves, k, s[i]);
    }
}

/// Decoding the Huffman-coded form of a byte string gives the string back,
/// for every string that can be coded: one that is no longer than a
/// frequency field can count, and in which not all 256 byte values occur.
pub proof fn huffman_round_trip(s: Seq<u8>)
    requires
        s.len() <= u32::MAX,
        distinct_bytes(s) <= 255,
    ensures
        huffman_decoding(huffman_encoding(s)) == Some(s),
{
    if s.len() == 0 {
        assert(s =~= Seq::<u8>::empty());
    } else {
        let table = frequency_table(s);
        let leaves = leaves_of(table);
        let tree = code_tree(s);
        let bits = encode_bits(tree, s);
        let payload = pack_bits(bits);
        let coded = huffman_encoding(s);
        lemma_leaves_upto(table, 256);
        lemma_occurrences_positive(s, 0);
        lemma_occurrences_bound(s, s[0]);
        assert(table[s[0] as int] > 0);
        assert(leaves.len() >= 1);
        lemma_frequency_total(s);
        lemma_header_round_trip(table, payload);
        lemma_string_has_leaves(s);
        assert(symbol_total(coded) == s.len());
        match tree {
            HuffmanNode::Leaf { byte, .. } => {
                assert forall|i: int| 0 <= i < s.len() implies s[i] == byte by {
                    assert(tree.has_leaf(s[i]));
                }
                assert(repeated(byte, s.len()) =~= s);
            },
            HuffmanNode::Internal { .. } => {
                let pad = Seq::new(padding_len(bits.len()), |i: int| false);
                lemma_unpack_pack(bits);
                lemma_decode_encoded(tree, s, pad, 0);
                lemma_prefixed_empty(Some(s));
            },
        }
    }
}

/// Huffman-coding a text by its UTF-8 bytes and decoding the result gives
/// bytes that are UTF-8 for the same text, for every text that is no
/// longer than a frequency field can count.
pub proof fn huffman_text_round_trip(text: Seq<char>)
    requires
        vstd::utf8::encode_utf8(text).len() <= u32::MAX,
    ensures
        huffman_decoding(huffman_encoding(vstd::utf8::encode_utf8(text))) matches Some(decoded)
            && vstd::utf8::valid_utf8(decoded) && vstd::utf8::decode_utf8(decoded) == text,
{
    broadcast use {vstd::utf8::encode_utf8_valid_utf8, vstd::utf8::encode_utf8_decode_utf8};

    lemma_text_alphabet(text);
    huffman_round_trip(vstd::utf8::encode_utf8(text));
}

} // verus!
