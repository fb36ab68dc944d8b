//! What holds of the codes of a tree, and of coding with them.

use super::codes::{
    child, code_table, codes_from, decoded, decoded_from, encoded, huffman_codes,
    lemma_encoded_exists, lemma_lookup_finds, lemma_lookup_found, lookup, preceded,
};
use super::forest::{
    built, has_occurring_symbol, is_arena, is_sound_node, leaf_slot, leaf_slots,
    lemma_initial_forest, lemma_leaf_of_entry, lemma_leaves_exist, lemma_lightest_is_lightest,
    lemma_merged_forest, lemma_no_leaf, lemma_root_reaches_leaves, nodes_of, reaches,
};
use super::frequency::{
    count, has_symbol, holds_symbol, is_frequency_table, lemma_count_positive,
};
use super::tree::{
    is_candidate, is_lightest, lemma_lightest_is_unique, lemma_lightest_of_none, lightest,
    HuffmanNode,
};
use crate::bits::all_bits;
use vstd::prelude::*;

verus! {

/// Every code below a node starts with the prefix that was handed down to the
/// node, and below a join something follows it.
pub proof fn lemma_codes_start_with_prefix(
    nodes: Seq<HuffmanNode>,
    i: int,
    prefix: Seq<u8>,
    k: int,
)
    requires
        0 <= k < codes_from(nodes, i, prefix).len(),
    ensures
        prefix.is_prefix_of(codes_from(nodes, i, prefix)[k].1),
        nodes[i] is Internal ==> codes_from(nodes, i, prefix)[k].1.len() > prefix.len(),
    decreases i,
{
    match nodes[i] {
        HuffmanNode::Leaf { .. } => {},
        HuffmanNode::Internal { left, right, .. } => {
            let to_left = codes_from(nodes, left as int, prefix.push(0));
            let to_right = codes_from(nodes, right as int, prefix.push(1));
            if k < to_left.len() {
                lemma_codes_start_with_prefix(nodes, left as int, prefix.push(0), k);
                let code = to_left[k].1;
                assert(code.subrange(0, prefix.len() as int) =~= code.subrange(
                    0,
                    prefix.len() as int + 1,
                ).subrange(0, prefix.len() as int));
            } else {
                lemma_codes_start_with_prefix(
                    nodes,
                    right as int,
                    prefix.push(1),
                    k - to_left.len(),
                );
                let code = to_right[k - to_left.len()].1;
                assert(code.subrange(0, prefix.len() as int) =~= code.subrange(
                    0,
                    prefix.len() as int + 1,
                ).subrange(0, prefix.len() as int));
            }
        },
    }
}

/// The bit of a code that follows the prefix handed down to a join tells
/// whether the code belongs to the left or to the right child.
proof fn lemma_codes_branch_bit(nodes: Seq<HuffmanNode>, i: int, prefix: Seq<u8>, k: int)
    requires
        0 <= k < codes_from(nodes, i, prefix).len(),
        nodes[i] matches HuffmanNode::Internal { .. },
    ensures
        codes_from(nodes, i, prefix)[k].1.len() > prefix.len(),
        nodes[i] matches HuffmanNode::Internal { left, right, .. } && codes_from(
            nodes,
            i,
            prefix,
        )[k].1[prefix.len() as int] == (if k < codes_from(
            nodes,
            left as int,
            prefix.push(0),
        ).len() {
            0u8
        } else {
            1u8
        }),
{
    match nodes[i] {
        HuffmanNode::Leaf { .. } => {},
        HuffmanNode::Internal { left, right, .. } => {
            let to_left = codes_from(nodes, left as int, prefix.push(0));
            if k < to_left.len() {
                lemma_codes_start_with_prefix(nodes, left as int, prefix.push(0), k);
                let code = to_left[k].1;
                assert(code.subrange(0, prefix.len() as int + 1)[prefix.len() as int]
                    == code[prefix.len() as int]);
            } else {
                lemma_codes_start_with_prefix(
                    nodes,
                    right as int,
                    prefix.push(1),
                    k - to_left.len(),
                );
                let code = codes_from(nodes, right as int, prefix.push(1))[k - to_left.len()].1;
                assert(code.subrange(0, prefix.len() as int + 1)[prefix.len() as int]
                    == code[prefix.len() as int]);
            }
        },
    }
}

/// No code below a node is the beginning of another code below it.
pub proof fn lemma_codes_prefix_free(
    nodes: Seq<HuffmanNode>,
    i: int,
    prefix: Seq<u8>,
    k1: int,
    k2: int,
)
    requires
        0 <= k1 < codes_from(nodes, i, prefix).len(),
        0 <= k2 < codes_from(nodes, i, prefix).len(),
        k1 != k2,
    ensures
        !codes_from(nodes, i, prefix)[k1].1.is_prefix_of(codes_from(nodes, i, prefix)[k2].1),
    decreases i,
{
    match nodes[i] {
        HuffmanNode::Leaf { .. } => {},
        HuffmanNode::Internal { left, right, .. } => {
            let to_left = codes_from(nodes, left as int, prefix.push(0));
            let split = to_left.len();
            let code1 = codes_from(nodes, i, prefix)[k1].1;
            let code2 = codes_from(nodes, i, prefix)[k2].1;
            if k1 < split && k2 < split {
                lemma_codes_prefix_free(nodes, left as int, prefix.push(0), k1, k2);
            } else if k1 >= split && k2 >= split {
                lemma_codes_prefix_free(
                    nodes,
                    right as int,
                    prefix.push(1),
                    k1 - split,
                    k2 - split,
                );
            } else {
                lemma_codes_branch_bit(nodes, i, prefix, k1);
                lemma_codes_branch_bit(nodes, i, prefix, k2);
                if code1.is_prefix_of(code2) {
                    assert(code2.subrange(0, code1.len() as int)[prefix.len() as int]
                        == code2[prefix.len() as int]);
                }
            }
        },
    }
}

/// Read from a join on, what follows the prefix in a code below the join
/// leads to the leaf of the code's symbol, and reading goes on at the root.
pub proof fn lemma_code_decodes(
    nodes: Seq<HuffmanNode>,
    root: int,
    i: int,
    prefix: Seq<u8>,
    k: int,
    rest: Seq<u8>,
)
    requires
        is_arena(nodes),
        0 <= i < nodes.len(),
        nodes[i] is Internal,
        0 <= k < codes_from(nodes, i, prefix).len(),
    ensures
        decoded_from(
            nodes,
            root,
            i,
            codes_from(nodes, i, prefix)[k].1.skip(prefix.len() as int) + rest,
        ) == preceded(
            seq![codes_from(nodes, i, prefix)[k].0],
            decoded_from(nodes, root, root, rest),
        ),
    decreases i,
{
    assert(is_sound_node(nodes, i));
    lemma_codes_branch_bit(nodes, i, prefix, k);
    match nodes[i] {
        HuffmanNode::Leaf { .. } => {},
        HuffmanNode::Internal { left, right, .. } => {
            let to_left = codes_from(nodes, left as int, prefix.push(0));
            let entry = codes_from(nodes, i, prefix)[k];
            let code = entry.1;
            let stream = code.skip(prefix.len() as int) + rest;
            let (bit, below, index) = if k < to_left.len() {
                (0u8, left as int, k)
            } else {
                (1u8, right as int, k - to_left.len())
            };
            let handed = prefix.push(bit);
            assert(entry == codes_from(nodes, below, handed)[index]);
            assert(stream[0] == bit);
            assert(child(nodes, i, stream[0]) == below);
            assert(stream.drop_first() =~= code.skip(handed.len() as int) + rest);
            match nodes[below] {
                HuffmanNode::Leaf { symbol, .. } => {
                    assert(code.skip(handed.len() as int) =~= Seq::<u8>::empty());
                    assert(stream.drop_first() =~= rest);
                },
                HuffmanNode::Internal { .. } => {
                    lemma_code_decodes(nodes, root, below, handed, index, rest);
                },
            }
        },
    }
}

/// The code of one symbol, read from the root, gives the symbol back.
proof fn lemma_code_of_tree_decodes(
    nodes: Seq<HuffmanNode>,
    root: int,
    symbol: u8,
    rest: Seq<u8>,
)
    requires
        is_arena(nodes),
        0 <= root < nodes.len(),
        lookup(code_table(nodes, root), symbol) is Some,
    ensures
        decoded_from(nodes, root, root, lookup(code_table(nodes, root), symbol)->0 + rest)
            == preceded(seq![symbol], decoded_from(nodes, root, root, rest)),
{
    let table = code_table(nodes, root);
    let code = lookup(table, symbol)->0;
    let k = lemma_lookup_found(table, symbol);
    match nodes[root] {
        HuffmanNode::Leaf { .. } => {
            assert((code + rest).drop_first() =~= rest);
        },
        HuffmanNode::Internal { .. } => {
            lemma_code_decodes(nodes, root, root, Seq::empty(), k, rest);
            assert(code.skip(0) =~= code);
        },
    }
}

/// Decoding, with the tree, what was encoded with the code table of the tree
/// gives the symbols back, and goes on with what follows.
pub proof fn lemma_decode_inverts_encode(
    nodes: Seq<HuffmanNode>,
    root: int,
    symbols: Seq<u8>,
    rest: Seq<u8>,
)
    requires
        is_arena(nodes),
        0 <= root < nodes.len(),
        encoded(symbols, code_table(nodes, root)) is Some,
    ensures
        decoded_from(nodes, root, root, encoded(symbols, code_table(nodes, root))->0 + rest)
            == preceded(symbols, decoded_from(nodes, root, root, rest)),
    decreases symbols.len(),
{
    let table = code_table(nodes, root);
    let after = decoded_from(nodes, root, root, rest);
    if symbols.len() == 0 {
        assert(Seq::<u8>::empty() + rest =~= rest);
        if let Some(tail) = after {
            assert(symbols + tail =~= tail);
        }
    } else {
        let front = symbols.drop_last();
        let stream = encoded(front, table)->0;
        let code = lookup(table, symbols.last())->0;
        lemma_code_of_tree_decodes(nodes, root, symbols.last(), rest);
        lemma_decode_inverts_encode(nodes, root, front, code + rest);
        assert((stream + code) + rest =~= stream + (code + rest));
        if let Some(tail) = after {
            assert(front + (seq![symbols.last()] + tail) =~= symbols + tail);
        }
    }
}

/// A leaf that lies below a node has its symbol among the codes below that
/// node.
pub proof fn lemma_reached_leaf_has_code(
    nodes: Seq<HuffmanNode>,
    i: int,
    prefix: Seq<u8>,
    target: int,
) -> (k: int)
    requires
        0 <= i < nodes.len(),
        0 <= target < nodes.len(),
        reaches(nodes, i, target),
        nodes[target] is Leaf,
    ensures
        0 <= k < codes_from(nodes, i, prefix).len(),
        nodes[target] matches HuffmanNode::Leaf { symbol, .. } && codes_from(
            nodes,
            i,
            prefix,
        )[k].0 == symbol,
    decreases i,
{
    if i == target {
        0
    } else {
        match nodes[i] {
            HuffmanNode::Leaf { .. } => 0,
            HuffmanNode::Internal { left, right, .. } => {
                let to_left = codes_from(nodes, left as int, prefix.push(0));
                if reaches(nodes, left as int, target) {
                    lemma_reached_leaf_has_code(nodes, left as int, prefix.push(0), target)
                } else {
                    to_left.len() + lemma_reached_leaf_has_code(
                        nodes,
                        right as int,
                        prefix.push(1),
                        target,
                    )
                }
            },
        }
    }
}

/// Every symbol of a stream has a code in the table that is made of the
/// stream's own frequencies.
pub proof fn lemma_symbol_has_code(data: Seq<u8>, table: Seq<(u8, u128)>, at: int)
    requires
        is_frequency_table(table, data),
        0 <= at < data.len(),
    ensures
        has_occurring_symbol(table),
        lookup(huffman_codes(table), data[at]) is Some,
{
    lemma_leaves_exist(table);
    let symbol = data[at];
    lemma_count_positive(data, at);
    assert(has_symbol(table, symbol));
    let e = choose|e: int| holds_symbol(table, e, symbol);
    let l = lemma_leaf_of_entry(table, e);
    let initial = leaf_slots(table);
    lemma_initial_forest(table);
    lemma_merged_forest(initial, initial, initial.len());
    let slots = built(table);
    lemma_root_reaches_leaves(slots, initial, l);
    lemma_lightest_is_lightest(slots, None);
    let root = lightest(slots, None)->0 as int;
    let nodes = nodes_of(slots);
    assert(nodes[l] == initial[l].node);
    match nodes[root] {
        HuffmanNode::Leaf { .. } => {
            assert(root == l);
            lemma_lookup_finds(huffman_codes(table), symbol, 0);
        },
        HuffmanNode::Internal { .. } => {
            let k = lemma_reached_leaf_has_code(nodes, root, Seq::empty(), l);
            lemma_lookup_finds(huffman_codes(table), symbol, k);
        },
    }
}

/// A stream of symbols that is encoded with the code table made of its own
/// frequencies, and decoded with the tree made of them, comes back as it
/// was.
pub proof fn lemma_round_trip(data: Seq<u8>, table: Seq<(u8, u128)>)
    requires
        data.len() > 0,
        is_frequency_table(table, data),
    ensures
        has_occurring_symbol(table),
        encoded(data, huffman_codes(table)) is Some,
        decoded(
            nodes_of(built(table)),
            lightest(built(table), None)->0 as int,
            encoded(data, huffman_codes(table))->0,
        ) == Some(data),
{
    let codes = huffman_codes(table);
    assert forall|n: int| 0 <= n < data.len() implies lookup(codes, #[trigger] data[n]) is Some by {
        lemma_symbol_has_code(data, table, n);
    }
    lemma_symbol_has_code(data, table, 0);
    lemma_encoded_exists(data, codes);
    lemma_leaves_exist(table);
    let initial = leaf_slots(table);
    lemma_initial_forest(table);
    lemma_merged_forest(initial, initial, initial.len());
    let slots = built(table);
    lemma_lightest_is_lightest(slots, None);
    let root = lightest(slots, None)->0 as int;
    let nodes = nodes_of(slots);
    lemma_decode_inverts_encode(nodes, root, data, Seq::empty());
    let stream = encoded(data, codes)->0;
    assert(stream + Seq::<u8>::empty() =~= stream);
    assert(data + Seq::<u8>::empty() =~= data);
}

/// Below a node that was handed down bits, every code is made of bits.
pub proof fn lemma_codes_are_bits(nodes: Seq<HuffmanNode>, i: int, prefix: Seq<u8>, k: int)
    requires
        0 <= k < codes_from(nodes, i, prefix).len(),
        all_bits(prefix),
    ensures
        all_bits(codes_from(nodes, i, prefix)[k].1),
    decreases i,
{
    match nodes[i] {
        HuffmanNode::Leaf { .. } => {},
        HuffmanNode::Internal { left, right, .. } => {
            let to_left = codes_from(nodes, left as int, prefix.push(0));
            let to_right = codes_from(nodes, right as int, prefix.push(1));
            assert(all_bits(prefix.push(0)));
            assert(all_bits(prefix.push(1)));
            if k < to_left.len() {
                lemma_codes_are_bits(nodes, left as int, prefix.push(0), k);
                assert(codes_from(nodes, i, prefix)[k] == to_left[k]);
            } else {
                lemma_codes_are_bits(nodes, right as int, prefix.push(1), k - to_left.len());
                assert(codes_from(nodes, i, prefix)[k] == to_right[k - to_left.len()]);
            }
        },
    }
}

/// Every code of the code table of a tree holds at least one bit, and every
/// bit of it is `0` or `1`.
pub proof fn lemma_code_is_not_empty(nodes: Seq<HuffmanNode>, root: int, k: int)
    requires
        0 <= k < code_table(nodes, root).len(),
    ensures
        code_table(nodes, root)[k].1.len() >= 1,
        all_bits(code_table(nodes, root)[k].1),
{
    match nodes[root] {
        HuffmanNode::Leaf { .. } => {},
        HuffmanNode::Internal { .. } => {
            lemma_codes_start_with_prefix(nodes, root, Seq::empty(), k);
            lemma_codes_are_bits(nodes, root, Seq::empty(), k);
        },
    }
}

/// In the code table of a tree, the codes of two different symbols are not
/// the beginning of one another.
pub proof fn lemma_prefix_property(nodes: Seq<HuffmanNode>, root: int, a: u8, b: u8)
    requires
        a != b,
        lookup(code_table(nodes, root), a) is Some,
        lookup(code_table(nodes, root), b) is Some,
    ensures
        !lookup(code_table(nodes, root), a)->0.is_prefix_of(lookup(code_table(nodes, root), b)->0),
        !lookup(code_table(nodes, root), b)->0.is_prefix_of(lookup(code_table(nodes, root), a)->0),
{
    let table = code_table(nodes, root);
    let ka = lemma_lookup_found(table, a);
    let kb = lemma_lookup_found(table, b);
    match nodes[root] {
        HuffmanNode::Leaf { .. } => {},
        HuffmanNode::Internal { .. } => {
            lemma_codes_prefix_free(nodes, root, Seq::empty(), ka, kb);
            lemma_codes_prefix_free(nodes, root, Seq::empty(), kb, ka);
        },
    }
}

/// In the code table that is made of a frequency table, the codes of two
/// different symbols are not the beginning of one another.
pub proof fn lemma_huffman_prefix_property(table: Seq<(u8, u128)>, a: u8, b: u8)
    requires
        a != b,
        lookup(huffman_codes(table), a) is Some,
        lookup(huffman_codes(table), b) is Some,
    ensures
        !lookup(huffman_codes(table), a)->0.is_prefix_of(lookup(huffman_codes(table), b)->0),
        !lookup(huffman_codes(table), b)->0.is_prefix_of(lookup(huffman_codes(table), a)->0),
{
    if has_occurring_symbol(table) {
        lemma_prefix_property(
            nodes_of(built(table)),
            lightest(built(table), None)->0 as int,
            a,
            b,
        );
    }
}

/// In a stream that repeats one symbol, that symbol occurs as often as the
/// stream is long, and no other symbol occurs.
proof fn lemma_count_of_repeated(data: Seq<u8>, symbol: u8, other: u8)
    requires
        forall|n: int| 0 <= n < data.len() ==> data[n] == symbol,
    ensures
        count(data, symbol) == data.len(),
        other != symbol ==> count(data, other) == 0,
    decreases data.len(),
{
    if data.len() > 0 {
        lemma_count_of_repeated(data.drop_last(), symbol, other);
    }
}

/// A table in which one symbol occurs gives the leaf of that symbol.
proof fn lemma_one_leaf(table: Seq<(u8, u128)>, e: int)
    requires
        0 <= e < table.len(),
        table[e].1 > 0,
        forall|i: int| 0 <= i < table.len() && i != e ==> (#[trigger] table[i]).1 == 0,
    ensures
        leaf_slots(table) == seq![leaf_slot(table[e])],
    decreases table.len(),
{
    if e == table.len() - 1 {
        lemma_no_leaf(table.drop_last());
        assert(leaf_slots(table) =~= seq![leaf_slot(table[e])]);
    } else {
        lemma_one_leaf(table.drop_last(), e);
    }
}

/// A stream that repeats one symbol gives a tree that is the leaf of that
/// symbol, and the code of the symbol is the single bit `0`.
pub proof fn lemma_single_symbol(data: Seq<u8>, table: Seq<(u8, u128)>, symbol: u8)
    requires
        data.len() > 0,
        forall|n: int| 0 <= n < data.len() ==> data[n] == symbol,
        is_frequency_table(table, data),
    ensures
        nodes_of(built(table)) == seq![
            HuffmanNode::Leaf { symbol, frequency: data.len() as u128 },
        ],
        lightest(built(table), None) == Some(0usize),
        huffman_codes(table) == seq![(symbol, seq![0u8])],
{
    assert(has_symbol(table, symbol));
    let e = choose|e: int| holds_symbol(table, e, symbol);
    lemma_count_of_repeated(data, symbol, symbol);
    assert forall|i: int| 0 <= i < table.len() && i != e implies (#[trigger] table[i]).1 == 0 by {
        lemma_count_of_repeated(data, symbol, table[i].0);
    }
    lemma_one_leaf(table, e);
    let slots = leaf_slots(table);
    assert(is_candidate(slots, None, 0));
    assert(is_lightest(slots, None, 0));
    lemma_lightest_is_unique(slots, None, 0);
    lemma_lightest_of_none(slots, Some(0usize));
    assert(built(table) == slots);
    assert(nodes_of(slots) =~= seq![
        HuffmanNode::Leaf { symbol, frequency: data.len() as u128 },
    ]);
}

} // verus!
