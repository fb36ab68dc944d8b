//! A code table holds one code for every symbol that occurs.
//!
//! The codes of a tree are listed leaf by leaf. In a tree no leaf is listed
//! twice, and the leaves that construction starts from are of different
//! symbols: so no symbol is listed twice.

use super::codes::{code_table, codes_from, huffman_codes};
use super::forest::{
    built, has_one_parent, is_child_of, is_forest, is_parent_of, is_sound_node, is_tree,
    leaf_slot, leaf_slots, lemma_initial_forest, lemma_lightest_is_lightest, lemma_merged_forest,
    lemma_single_tree_is_tree, nodes_of, reaches,
};
use super::frequency::{has_distinct_symbols, is_ranked_table};
use super::tree::{lightest, HuffmanNode};
use vstd::prelude::*;

verus! {

/// The leaves below node `i`, from left to right.
pub open spec fn leaves_from(nodes: Seq<HuffmanNode>, i: int) -> Seq<int>
    decreases i,
{
    if 0 <= i < nodes.len() {
        match nodes[i] {
            HuffmanNode::Leaf { .. } => seq![i],
            HuffmanNode::Internal { left, right, .. } => {
                if left < i && right < i {
                    leaves_from(nodes, left as int) + leaves_from(nodes, right as int)
                } else {
                    Seq::empty()
                }
            },
        }
    } else {
        Seq::empty()
    }
}

/// The codes below a node are those of the leaves below it, in their order.
pub proof fn lemma_codes_follow_leaves(nodes: Seq<HuffmanNode>, i: int, prefix: Seq<u8>, k: int)
    requires
        0 <= k < codes_from(nodes, i, prefix).len(),
    ensures
        codes_from(nodes, i, prefix).len() == leaves_from(nodes, i).len(),
        0 <= leaves_from(nodes, i)[k] < nodes.len(),
        reaches(nodes, i, leaves_from(nodes, i)[k]),
        nodes[leaves_from(nodes, i)[k]] matches HuffmanNode::Leaf { symbol, .. } && symbol
            == codes_from(nodes, i, prefix)[k].0,
    decreases i,
{
    lemma_as_many_codes_as_leaves(nodes, i, prefix);
    match nodes[i] {
        HuffmanNode::Leaf { .. } => {},
        HuffmanNode::Internal { left, right, .. } => {
            lemma_as_many_codes_as_leaves(nodes, left as int, prefix.push(0));
            let to_left = codes_from(nodes, left as int, prefix.push(0));
            if k < to_left.len() {
                lemma_codes_follow_leaves(nodes, left as int, prefix.push(0), k);
            } else {
                lemma_codes_follow_leaves(nodes, right as int, prefix.push(1), k - to_left.len());
            }
        },
    }
}

/// There are as many codes below a node as there are leaves.
pub proof fn lemma_as_many_codes_as_leaves(nodes: Seq<HuffmanNode>, i: int, prefix: Seq<u8>)
    ensures
        codes_from(nodes, i, prefix).len() == leaves_from(nodes, i).len(),
    decreases i,
{
    if 0 <= i < nodes.len() {
        match nodes[i] {
            HuffmanNode::Leaf { .. } => {},
            HuffmanNode::Internal { left, right, .. } => {
                if left < i && right < i {
                    lemma_as_many_codes_as_leaves(nodes, left as int, prefix.push(0));
                    lemma_as_many_codes_as_leaves(nodes, right as int, prefix.push(1));
                }
            },
        }
    }
}

/// What lies below a node stands before it, or is the node.
proof fn lemma_reaches_below(nodes: Seq<HuffmanNode>, from: int, target: int)
    requires
        reaches(nodes, from, target),
    ensures
        target <= from,
    decreases from,
{
    if from != target {
        match nodes[from] {
            HuffmanNode::Leaf { .. } => {},
            HuffmanNode::Internal { left, right, .. } => {
                if reaches(nodes, left as int, target) {
                    lemma_reaches_below(nodes, left as int, target);
                } else {
                    lemma_reaches_below(nodes, right as int, target);
                }
            },
        }
    }
}

/// A node that lies below another has a parent that lies below that other
/// node, or is it.
proof fn lemma_parent_on_the_way(nodes: Seq<HuffmanNode>, from: int, target: int) -> (parent: int)
    requires
        reaches(nodes, from, target),
        from != target,
    ensures
        reaches(nodes, from, parent),
        is_child_of(nodes, parent, target),
    decreases from,
{
    match nodes[from] {
        HuffmanNode::Leaf { .. } => from,
        HuffmanNode::Internal { left, right, .. } => {
            let next = if reaches(nodes, left as int, target) {
                left as int
            } else {
                right as int
            };
            if next == target {
                from
            } else {
                lemma_parent_on_the_way(nodes, next, target)
            }
        },
    }
}

/// Of two nodes of a tree that a third one lies below, one lies below the
/// other.
proof fn lemma_ancestors_form_a_chain(
    nodes: Seq<HuffmanNode>,
    root: int,
    x: int,
    y: int,
    target: int,
)
    requires
        is_tree(nodes, root),
        0 <= x < nodes.len(),
        reaches(nodes, x, target),
        reaches(nodes, y, target),
    ensures
        reaches(nodes, x, y) || reaches(nodes, y, x),
    decreases x,
{
    if x != y && x != target {
        assert(is_sound_node(nodes, x));
        match nodes[x] {
            HuffmanNode::Leaf { .. } => {},
            HuffmanNode::Internal { left, right, .. } => {
                let next = if reaches(nodes, left as int, target) {
                    left as int
                } else {
                    right as int
                };
                lemma_ancestors_form_a_chain(nodes, root, next, y, target);
                if !reaches(nodes, next, y) && y != next {
                    let parent = lemma_parent_on_the_way(nodes, y, next);
                    assert(is_child_of(nodes, x, next));
                    assert(has_one_parent(nodes, next));
                    let only = choose|p: int| is_parent_of(nodes, p, next);
                    assert(parent == only);
                    assert(x == only);
                }
            },
        }
    }
}

/// In a tree no leaf is listed twice below a node.
pub proof fn lemma_leaves_are_distinct(
    nodes: Seq<HuffmanNode>,
    root: int,
    i: int,
    k1: int,
    k2: int,
)
    requires
        is_tree(nodes, root),
        0 <= i < nodes.len(),
        0 <= k1 < leaves_from(nodes, i).len(),
        0 <= k2 < leaves_from(nodes, i).len(),
        k1 != k2,
    ensures
        leaves_from(nodes, i)[k1] != leaves_from(nodes, i)[k2],
    decreases i,
{
    assert(is_sound_node(nodes, i));
    match nodes[i] {
        HuffmanNode::Leaf { .. } => {},
        HuffmanNode::Internal { left, right, .. } => {
            let split = leaves_from(nodes, left as int).len();
            if k1 < split && k2 < split {
                lemma_leaves_are_distinct(nodes, root, left as int, k1, k2);
            } else if k1 >= split && k2 >= split {
                lemma_leaves_are_distinct(nodes, root, right as int, k1 - split, k2 - split);
            } else {
                let (in_left, in_right) = if k1 < split {
                    (k1, k2 - split)
                } else {
                    (k2, k1 - split)
                };
                let first = leaves_from(nodes, left as int)[in_left];
                let second = leaves_from(nodes, right as int)[in_right];
                lemma_as_many_codes_as_leaves(nodes, left as int, Seq::empty());
                lemma_as_many_codes_as_leaves(nodes, right as int, Seq::empty());
                lemma_codes_follow_leaves(nodes, left as int, Seq::empty(), in_left);
                lemma_codes_follow_leaves(nodes, right as int, Seq::empty(), in_right);
                if first == second {
                    lemma_ancestors_form_a_chain(nodes, root, left as int, right as int, first);
                    let (above, below) = if reaches(nodes, left as int, right as int) {
                        (left as int, right as int)
                    } else {
                        (right as int, left as int)
                    };
                    let parent = lemma_parent_on_the_way(nodes, above, below);
                    lemma_reaches_below(nodes, above, parent);
                    assert(is_child_of(nodes, i, below));
                    assert(has_one_parent(nodes, below));
                    let only = choose|p: int| is_parent_of(nodes, p, below);
                    assert(parent == only);
                    assert(i == only);
                }
            }
        },
    }
}

/// Every leaf that construction starts from is the leaf of an entry of the
/// table.
proof fn lemma_entry_of_leaf(table: Seq<(u8, u128)>, l: int) -> (e: int)
    requires
        0 <= l < leaf_slots(table).len(),
    ensures
        0 <= e < table.len(),
        leaf_slots(table)[l] == leaf_slot(table[e]),
    decreases table.len(),
{
    if table.last().1 > 0 && l == leaf_slots(table).len() - 1 {
        table.len() - 1
    } else {
        lemma_entry_of_leaf(table.drop_last(), l)
    }
}

/// The leaves that construction starts from are of different symbols.
proof fn lemma_leaf_symbols_differ(table: Seq<(u8, u128)>, l1: int, l2: int)
    requires
        has_distinct_symbols(table),
        0 <= l1 < l2 < leaf_slots(table).len(),
    ensures
        leaf_slots(table)[l1].node != leaf_slots(table)[l2].node,
        leaf_slots(table)[l1].node matches HuffmanNode::Leaf { symbol: first, .. }
            && leaf_slots(table)[l2].node matches HuffmanNode::Leaf { symbol: second, .. }
            && first != second,
    decreases table.len(),
{
    let rest = table.drop_last();
    if table.last().1 > 0 && l2 == leaf_slots(table).len() - 1 {
        let e = lemma_entry_of_leaf(rest, l1);
        assert(table[e] == rest[e]);
        assert(table[e].0 != table[table.len() - 1].0);
    } else {
        assert(has_distinct_symbols(rest)) by {
            assert forall|i: int, j: int|
                0 <= i < rest.len() && 0 <= j < rest.len() && i != j implies (#[trigger] rest[i]).0
                != (#[trigger] rest[j]).0 by {
                assert(table[i].0 != table[j].0);
            }
        }
        lemma_leaf_symbols_differ(rest, l1, l2);
    }
}

/// The code table of a tree lists no leaf twice.
pub proof fn lemma_code_table_lists_leaves_once(
    nodes: Seq<HuffmanNode>,
    root: int,
    k1: int,
    k2: int,
)
    requires
        is_tree(nodes, root),
        nodes[root] is Internal,
        0 <= k1 < code_table(nodes, root).len(),
        0 <= k2 < code_table(nodes, root).len(),
        k1 != k2,
    ensures
        code_table(nodes, root).len() == leaves_from(nodes, root).len(),
        leaves_from(nodes, root)[k1] != leaves_from(nodes, root)[k2],
{
    lemma_as_many_codes_as_leaves(nodes, root, Seq::empty());
    lemma_leaves_are_distinct(nodes, root, root, k1, k2);
}

/// The code table that is made of a frequency table holds no symbol twice.
pub proof fn lemma_one_code_for_a_symbol(table: Seq<(u8, u128)>, k1: int, k2: int)
    requires
        is_ranked_table(table),
        0 <= k1 < huffman_codes(table).len(),
        0 <= k2 < huffman_codes(table).len(),
        k1 != k2,
    ensures
        huffman_codes(table)[k1].0 != huffman_codes(table)[k2].0,
{
    let initial = leaf_slots(table);
    lemma_initial_forest(table);
    lemma_merged_forest(initial, initial, initial.len());
    let slots = built(table);
    lemma_single_tree_is_tree(slots, initial);
    lemma_lightest_is_lightest(slots, None);
    let root = lightest(slots, None)->0 as int;
    let nodes = nodes_of(slots);
    match nodes[root] {
        HuffmanNode::Leaf { .. } => {},
        HuffmanNode::Internal { .. } => {
            lemma_code_table_lists_leaves_once(nodes, root, k1, k2);
            lemma_codes_follow_leaves(nodes, root, Seq::empty(), k1);
            lemma_codes_follow_leaves(nodes, root, Seq::empty(), k2);
            let l1 = leaves_from(nodes, root)[k1];
            let l2 = leaves_from(nodes, root)[k2];
            assert(slots[l1].node == nodes[l1]);
            assert(slots[l2].node == nodes[l2]);
            assert(l1 < initial.len());
            assert(l2 < initial.len());
            if l1 < l2 {
                lemma_leaf_symbols_differ(table, l1, l2);
            } else {
                lemma_leaf_symbols_differ(table, l2, l1);
            }
        },
    }
}

} // verus!
