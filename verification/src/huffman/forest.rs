//! What holds of the nodes while a code tree is built.
//!
//! During construction the nodes form a forest: every available node is the
//! root of a tree, and every leaf lies below exactly the available node that
//! it has been joined into. Each join takes two trees away and adds one, so
//! the forest ends as a single tree that holds every leaf.

use super::tree::{is_candidate, is_lightest, lemma_lightest_is_unique, lightest, HuffmanNode, Slot};
use vstd::prelude::*;

verus! {

/// The most that the frequencies of a table add up to.
pub open spec fn weight_limit() -> int {
    256 * 0xffff_ffff_ffff_ffffint
}

/// The nodes of the slots.
pub open spec fn nodes_of(slots: Seq<Slot>) -> Seq<HuffmanNode> {
    Seq::new(slots.len(), |i: int| slots[i].node)
}

/// Whether node `i` is sound: a leaf, or a join of two different nodes that
/// stand before it and whose frequencies add up to its own.
pub open spec fn is_sound_node(nodes: Seq<HuffmanNode>, i: int) -> bool {
    match nodes[i] {
        HuffmanNode::Leaf { .. } => true,
        HuffmanNode::Internal { frequency, left, right } => {
            &&& left < i
            &&& right < i
            &&& left != right
            &&& frequency == nodes[left as int].weight() + nodes[right as int].weight()
        },
    }
}

/// Whether every node is sound.
pub open spec fn is_arena(nodes: Seq<HuffmanNode>) -> bool {
    forall|i: int| 0 <= i < nodes.len() ==> #[trigger] is_sound_node(nodes, i)
}

/// Whether node `child` is one of the two nodes that node `parent` joins.
pub open spec fn is_child_of(nodes: Seq<HuffmanNode>, parent: int, child: int) -> bool {
    0 <= parent < nodes.len() && match nodes[parent] {
        HuffmanNode::Leaf { .. } => false,
        HuffmanNode::Internal { left, right, .. } => left == child || right == child,
    }
}

/// Whether no node joins node `child` with another.
pub open spec fn is_orphan(nodes: Seq<HuffmanNode>, child: int) -> bool {
    forall|parent: int| !is_child_of(nodes, parent, child)
}

/// Whether exactly one node joins node `child` with another.
pub open spec fn has_one_parent(nodes: Seq<HuffmanNode>, child: int) -> bool {
    exists|parent: int| is_parent_of(nodes, parent, child)
}

/// Whether node `parent`, and no other node, joins node `child` with
/// another.
pub open spec fn is_parent_of(nodes: Seq<HuffmanNode>, parent: int, child: int) -> bool {
    is_child_of(nodes, parent, child) && forall|other: int|
        is_child_of(nodes, other, child) ==> other == parent
}

/// Whether the nodes are a tree with the given root: the root stands last
/// and is joined with nothing, and every other node is joined with another
/// exactly once.
pub open spec fn is_tree(nodes: Seq<HuffmanNode>, root: int) -> bool {
    &&& is_arena(nodes)
    &&& nodes.len() >= 1
    &&& root == nodes.len() - 1
    &&& is_orphan(nodes, root)
    &&& forall|child: int| 0 <= child < root ==> #[trigger] has_one_parent(nodes, child)
}

/// Whether node `target` lies in the tree below node `from`, or is that node.
pub open spec fn reaches(nodes: Seq<HuffmanNode>, from: int, target: int) -> bool
    decreases from,
{
    from == target || (0 <= from < nodes.len() && match nodes[from] {
        HuffmanNode::Leaf { .. } => false,
        HuffmanNode::Internal { left, right, .. } => {
            &&& left < from
            &&& right < from
            &&& (reaches(nodes, left as int, target) || reaches(nodes, right as int, target))
        },
    })
}

/// The slot of a symbol that occurs: an available leaf.
pub open spec fn leaf_slot(entry: (u8, u128)) -> Slot {
    Slot { available: true, node: HuffmanNode::Leaf { symbol: entry.0, frequency: entry.1 } }
}

/// The slots that construction starts from: a leaf for every entry of the
/// table whose symbol occurs, in the order of the table.
pub open spec fn leaf_slots(table: Seq<(u8, u128)>) -> Seq<Slot>
    decreases table.len(),
{
    if table.len() == 0 {
        Seq::empty()
    } else if table.last().1 > 0 {
        leaf_slots(table.drop_last()).push(leaf_slot(table.last()))
    } else {
        leaf_slots(table.drop_last())
    }
}

/// A slot after its node has been joined with another.
pub open spec fn retired(slot: Slot) -> Slot {
    Slot { available: false, node: slot.node }
}

/// The node that joins the slots `first` and `second`.
pub open spec fn joined(slots: Seq<Slot>, first: int, second: int) -> HuffmanNode {
    HuffmanNode::Internal {
        frequency: (slots[first].node.weight() + slots[second].node.weight()) as u128,
        left: second as usize,
        right: first as usize,
    }
}

/// The slots after `first` and `second` have been joined.
pub open spec fn merge_step(slots: Seq<Slot>, first: int, second: int) -> Seq<Slot> {
    slots.update(first, retired(slots[first])).update(second, retired(slots[second])).push(
        Slot { available: true, node: joined(slots, first, second) },
    )
}

/// The slots after at most `rounds` joins of the two lightest available
/// nodes.
pub open spec fn merged(slots: Seq<Slot>, rounds: nat) -> Seq<Slot>
    decreases rounds,
{
    if rounds == 0 {
        slots
    } else {
        match lightest(slots, None) {
            Some(first) => match lightest(slots, Some(first)) {
                Some(second) => merged(
                    merge_step(slots, first as int, second as int),
                    (rounds - 1) as nat,
                ),
                None => slots,
            },
            None => slots,
        }
    }
}

/// The slots at the end of construction.
pub open spec fn built(table: Seq<(u8, u128)>) -> Seq<Slot> {
    merged(leaf_slots(table), leaf_slots(table).len())
}

/// The number of available slots.
pub open spec fn available_count(slots: Seq<Slot>) -> nat
    decreases slots.len(),
{
    if slots.len() == 0 {
        0
    } else {
        available_count(slots.drop_last()) + (if slots.last().available {
            1nat
        } else {
            0nat
        })
    }
}

/// The frequencies of the available slots, added up.
pub open spec fn available_weight(slots: Seq<Slot>) -> nat
    decreases slots.len(),
{
    if slots.len() == 0 {
        0
    } else {
        available_weight(slots.drop_last()) + (if slots.last().available {
            slots.last().node.weight() as nat
        } else {
            0nat
        })
    }
}

/// Whether `target` lies below the available slot `a`.
pub open spec fn covers(slots: Seq<Slot>, a: int, target: int) -> bool {
    0 <= a < slots.len() && slots[a].available && reaches(nodes_of(slots), a, target)
}

/// Whether `target` lies below an available slot.
pub open spec fn is_covered(slots: Seq<Slot>, target: int) -> bool {
    exists|a: int| covers(slots, a, target)
}

/// Whether slot `c` has its place in the forest: an available node is joined
/// with nothing, any other node is joined with another exactly once.
pub open spec fn is_placed(slots: Seq<Slot>, c: int) -> bool {
    if slots[c].available {
        is_orphan(nodes_of(slots), c)
    } else {
        has_one_parent(nodes_of(slots), c)
    }
}

/// Whether the slots are a forest over the leaves of `initial`.
pub open spec fn is_forest(slots: Seq<Slot>, initial: Seq<Slot>) -> bool {
    &&& 1 <= initial.len() <= 256
    &&& initial.len() <= slots.len() < 2 * initial.len()
    &&& forall|i: int| 0 <= i < initial.len() ==> (#[trigger] slots[i]).node == initial[i].node
    &&& forall|i: int| initial.len() <= i < slots.len() ==> (#[trigger] slots[i]).node is Internal
    &&& is_arena(nodes_of(slots))
    &&& slots.last().available
    &&& forall|c: int| 0 <= c < slots.len() ==> #[trigger] is_placed(slots, c)
    &&& available_count(slots) + slots.len() == 2 * initial.len()
    &&& available_weight(slots) <= weight_limit()
    &&& forall|target: int| 0 <= target < initial.len() ==> is_covered(slots, target)
}

/// A slot that is put at the end counts, and weighs, if it is available.
proof fn lemma_count_push(slots: Seq<Slot>, slot: Slot)
    ensures
        available_count(slots.push(slot)) == available_count(slots) + (if slot.available {
            1nat
        } else {
            0nat
        }),
        available_weight(slots.push(slot)) == available_weight(slots) + (if slot.available {
            slot.node.weight() as nat
        } else {
            0nat
        }),
{
    assert(slots.push(slot).drop_last() =~= slots);
}

/// An available slot that is retired counts, and weighs, no longer.
proof fn lemma_count_retire(slots: Seq<Slot>, a: int)
    requires
        0 <= a < slots.len(),
        slots[a].available,
    ensures
        available_count(slots.update(a, retired(slots[a]))) == available_count(slots) - 1,
        available_weight(slots.update(a, retired(slots[a]))) == available_weight(slots)
            - slots[a].node.weight(),
    decreases slots.len(),
{
    let after = slots.update(a, retired(slots[a]));
    if a == slots.len() - 1 {
        assert(after.drop_last() =~= slots.drop_last());
    } else {
        lemma_count_retire(slots.drop_last(), a);
        assert(after.drop_last() =~= slots.drop_last().update(a, retired(slots[a])));
    }
}

/// An available slot counts, and the available slots weigh at least what it
/// weighs.
proof fn lemma_count_holds(slots: Seq<Slot>, a: int)
    requires
        0 <= a < slots.len(),
        slots[a].available,
    ensures
        available_count(slots) >= 1,
        available_weight(slots) >= slots[a].node.weight(),
    decreases slots.len(),
{
    if a < slots.len() - 1 {
        lemma_count_holds(slots.drop_last(), a);
    }
}

/// A node that is put at the end changes nothing below the nodes before it.
pub proof fn lemma_reaches_push(
    nodes: Seq<HuffmanNode>,
    extra: HuffmanNode,
    from: int,
    target: int,
)
    requires
        0 <= from < nodes.len(),
    ensures
        reaches(nodes.push(extra), from, target) == reaches(nodes, from, target),
    decreases from,
{
    match nodes[from] {
        HuffmanNode::Leaf { .. } => {},
        HuffmanNode::Internal { left, right, .. } => {
            if left < from && right < from {
                lemma_reaches_push(nodes, extra, left as int, target);
                lemma_reaches_push(nodes, extra, right as int, target);
            }
        },
    }
}

/// The first of the lightest candidates among the slots before `end`.
proof fn lemma_lightest_among(slots: Seq<Slot>, ignore: Option<usize>, end: int) -> (found: Option<
    int,
>)
    requires
        0 <= end <= slots.len(),
    ensures
        found matches Some(m) ==> m < end && is_lightest(slots.take(end), ignore, m),
        found is None ==> forall|j: int| !is_candidate(slots.take(end), ignore, j),
    decreases end,
{
    if end == 0 {
        None
    } else {
        let before = lemma_lightest_among(slots, ignore, end - 1);
        let seen = slots.take(end - 1);
        let next = slots.take(end);
        let j = end - 1;
        assert forall|c: int| #[trigger] is_candidate(next, ignore, c) implies c == j
            || is_candidate(seen, ignore, c) by {}
        assert forall|c: int| #[trigger] is_candidate(seen, ignore, c) implies is_candidate(
            next,
            ignore,
            c,
        ) by {}
        if is_candidate(next, ignore, j) {
            match before {
                None => Some(j),
                Some(m) => {
                    assert(is_candidate(seen, ignore, m));
                    if slots[j].node.weight() < slots[m].node.weight() {
                        Some(j)
                    } else {
                        Some(m)
                    }
                },
            }
        } else {
            if let Some(m) = before {
                assert(is_candidate(seen, ignore, m));
            }
            before
        }
    }
}

/// Where there is a candidate, there is a slot to select.
pub proof fn lemma_lightest_exists(slots: Seq<Slot>, ignore: Option<usize>, candidate: int)
    requires
        is_candidate(slots, ignore, candidate),
        slots.len() <= usize::MAX,
    ensures
        lightest(slots, ignore) is Some,
{
    let found = lemma_lightest_among(slots, ignore, slots.len() as int);
    assert(slots.take(slots.len() as int) =~= slots);
    lemma_lightest_is_unique(slots, ignore, found->0);
}

/// The slot that is selected is the first of the lightest candidates.
pub proof fn lemma_lightest_is_lightest(slots: Seq<Slot>, ignore: Option<usize>)
    requires
        lightest(slots, ignore) is Some,
        slots.len() <= usize::MAX,
    ensures
        is_lightest(slots, ignore, lightest(slots, ignore)->0 as int),
{
    let chosen = choose|m: int| is_lightest(slots, ignore, m);
    assert(is_lightest(slots, ignore, chosen));
}

/// After a join every slot has its place, as it had before.
proof fn lemma_step_places(slots: Seq<Slot>, first: int, second: int, c: int)
    requires
        is_arena(nodes_of(slots)),
        forall|i: int| 0 <= i < slots.len() ==> #[trigger] is_placed(slots, i),
        0 <= first < slots.len(),
        0 <= second < slots.len(),
        first != second,
        slots[first].available,
        slots[second].available,
        slots.len() < usize::MAX,
        0 <= c <= slots.len(),
    ensures
        is_placed(merge_step(slots, first, second), c),
{
    let after = merge_step(slots, first, second);
    let nodes = nodes_of(slots);
    let grown = nodes_of(after);
    let top = slots.len() as int;
    assert(grown =~= nodes.push(joined(slots, first, second)));
    assert forall|p: int, x: int| is_child_of(grown, p, x) implies (p == top && (x == first || x
        == second)) || (p < top && is_child_of(nodes, p, x)) by {}
    assert forall|p: int, x: int| is_child_of(nodes, p, x) implies is_child_of(grown, p, x) by {}
    assert(is_child_of(grown, top, first));
    assert(is_child_of(grown, top, second));
    if c == top {
        assert forall|p: int| !is_child_of(grown, p, c) by {
            if is_child_of(grown, p, c) {
                assert(is_sound_node(nodes, p));
            }
        }
    } else if c == first || c == second {
        assert(is_placed(slots, c));
        assert(is_parent_of(grown, top, c)) by {
            assert forall|other: int| is_child_of(grown, other, c) implies other == top by {
                if other != top {
                    assert(is_child_of(nodes, other, c));
                }
            }
        }
    } else if slots[c].available {
        assert(is_placed(slots, c));
        assert forall|p: int| !is_child_of(grown, p, c) by {
            if is_child_of(grown, p, c) {
                assert(is_child_of(nodes, p, c));
            }
        }
    } else {
        assert(is_placed(slots, c));
        let p = choose|p: int| is_parent_of(nodes, p, c);
        assert(is_parent_of(grown, p, c)) by {
            assert forall|other: int| is_child_of(grown, other, c) implies other == p by {
                assert(is_child_of(nodes, other, c));
            }
        }
    }
}

/// A join keeps the forest a forest, and the frequency of the new node is
/// the sum of the two that it joins.
pub proof fn lemma_merge_step(slots: Seq<Slot>, initial: Seq<Slot>, first: int, second: int)
    requires
        is_forest(slots, initial),
        is_lightest(slots, None, first),
        is_lightest(slots, Some(first as usize), second),
    ensures
        is_forest(merge_step(slots, first, second), initial),
        slots[first].node.weight() + slots[second].node.weight() <= weight_limit(),
        available_count(merge_step(slots, first, second)) == available_count(slots) - 1,
        available_count(slots) >= 2,
{
    let step1 = slots.update(first, retired(slots[first]));
    let step2 = step1.update(second, retired(slots[second]));
    let top = Slot { available: true, node: joined(slots, first, second) };
    let after = step2.push(top);
    assert(after == merge_step(slots, first, second));
    assert(first != second);
    lemma_count_retire(slots, first);
    lemma_count_holds(step1, second);
    lemma_count_retire(step1, second);
    lemma_count_push(step2, top);
    let nodes = nodes_of(slots);
    let grown = nodes_of(after);
    assert(grown =~= nodes.push(top.node));
    assert forall|i: int| 0 <= i < grown.len() implies #[trigger] is_sound_node(grown, i) by {
        if i < nodes.len() {
            assert(is_sound_node(nodes, i));
        }
    }
    assert forall|c: int| 0 <= c < after.len() implies #[trigger] is_placed(after, c) by {
        lemma_step_places(slots, first, second, c);
    }
    assert forall|target: int| 0 <= target < initial.len() implies is_covered(after, target) by {
        assert(is_covered(slots, target));
        let a = choose|a: int| covers(slots, a, target);
        lemma_reaches_push(nodes, top.node, a, target);
        if a == first || a == second {
            lemma_reaches_push(nodes, top.node, first, target);
            lemma_reaches_push(nodes, top.node, second, target);
            assert(reaches(grown, nodes.len() as int, target));
            assert(covers(after, nodes.len() as int, target));
        } else {
            assert(covers(after, a, target));
        }
    }
}

/// What holds of the slots that construction starts from.
proof fn lemma_leaf_slots(table: Seq<(u8, u128)>)
    requires
        forall|i: int| 0 <= i < table.len() ==> (#[trigger] table[i]).1 <= u64::MAX,
    ensures
        leaf_slots(table).len() <= table.len(),
        available_count(leaf_slots(table)) == leaf_slots(table).len(),
        available_weight(leaf_slots(table)) <= table.len() * 0xffff_ffff_ffff_ffff,
        forall|i: int|
            0 <= i < leaf_slots(table).len() ==> (#[trigger] leaf_slots(table)[i]).available
                && leaf_slots(table)[i].node is Leaf,
    decreases table.len(),
{
    if table.len() > 0 {
        let rest = table.drop_last();
        lemma_leaf_slots(rest);
        if table.last().1 > 0 {
            lemma_count_push(leaf_slots(rest), leaf_slot(table.last()));
        }
    }
}

/// The slots that construction starts from are a forest.
pub proof fn lemma_initial_forest(table: Seq<(u8, u128)>)
    requires
        table.len() <= 256,
        forall|i: int| 0 <= i < table.len() ==> (#[trigger] table[i]).1 <= u64::MAX,
        leaf_slots(table).len() >= 1,
    ensures
        is_forest(leaf_slots(table), leaf_slots(table)),
{
    let slots = leaf_slots(table);
    lemma_leaf_slots(table);
    let nodes = nodes_of(slots);
    assert forall|i: int| 0 <= i < nodes.len() implies #[trigger] is_sound_node(nodes, i) by {
        assert(slots[i].node is Leaf);
    }
    assert forall|target: int| 0 <= target < slots.len() implies is_covered(slots, target) by {
        assert(slots[target].available);
        assert(covers(slots, target, target));
    }
    assert forall|c: int| 0 <= c < slots.len() implies #[trigger] is_placed(slots, c) by {
        assert(slots[c].available);
        assert forall|p: int| !is_child_of(nodes, p, c) by {
            if 0 <= p < nodes.len() {
                assert(slots[p].node is Leaf);
            }
        }
    }
    assert(slots.last().available);
}

/// Whether the forest has come down to a single tree.
pub open spec fn is_single_tree(slots: Seq<Slot>) -> bool {
    lightest(slots, None) matches Some(root) && lightest(slots, Some(root)) is None
}

/// Enough rounds of joins bring a forest down to a single tree.
pub proof fn lemma_merged_forest(slots: Seq<Slot>, initial: Seq<Slot>, rounds: nat)
    requires
        is_forest(slots, initial),
        rounds >= available_count(slots),
    ensures
        is_forest(merged(slots, rounds), initial),
        is_single_tree(merged(slots, rounds)),
    decreases rounds,
{
    assert(is_covered(slots, 0));
    let a = choose|a: int| covers(slots, a, 0);
    lemma_count_holds(slots, a);
    assert(is_candidate(slots, None, a));
    lemma_lightest_exists(slots, None, a);
    lemma_lightest_is_lightest(slots, None);
    let first = lightest(slots, None)->0;
    if lightest(slots, Some(first)) is Some {
        lemma_lightest_is_lightest(slots, Some(first));
        let second = lightest(slots, Some(first))->0;
        lemma_merge_step(slots, initial, first as int, second as int);
        lemma_merged_forest(
            merge_step(slots, first as int, second as int),
            initial,
            (rounds - 1) as nat,
        );
    }
}

/// In a forest that has come down to a single tree, every leaf lies below
/// the root.
pub proof fn lemma_root_reaches_leaves(slots: Seq<Slot>, initial: Seq<Slot>, target: int)
    requires
        is_forest(slots, initial),
        is_single_tree(slots),
        0 <= target < initial.len(),
    ensures
        reaches(nodes_of(slots), lightest(slots, None)->0 as int, target),
{
    let root = lightest(slots, None)->0;
    lemma_lightest_is_lightest(slots, None);
    assert(is_covered(slots, target));
    let a = choose|a: int| covers(slots, a, target);
    if a != root {
        assert(is_candidate(slots, Some(root), a));
        lemma_lightest_exists(slots, Some(root), a);
    }
}

/// A table in which no symbol occurs gives no leaf.
pub proof fn lemma_no_leaf(table: Seq<(u8, u128)>)
    requires
        forall|i: int| 0 <= i < table.len() ==> (#[trigger] table[i]).1 == 0,
    ensures
        leaf_slots(table).len() == 0,
    decreases table.len(),
{
    if table.len() > 0 {
        lemma_no_leaf(table.drop_last());
    }
}

/// Every entry of the table whose symbol occurs has its leaf among the slots
/// that construction starts from.
pub proof fn lemma_leaf_of_entry(table: Seq<(u8, u128)>, e: int) -> (l: int)
    requires
        0 <= e < table.len(),
        table[e].1 > 0,
    ensures
        0 <= l < leaf_slots(table).len(),
        leaf_slots(table)[l] == leaf_slot(table[e]),
    decreases table.len(),
{
    if e == table.len() - 1 {
        leaf_slots(table).len() - 1
    } else {
        lemma_leaf_of_entry(table.drop_last(), e)
    }
}

/// Whether a symbol of the table occurs.
pub open spec fn has_occurring_symbol(table: Seq<(u8, u128)>) -> bool {
    exists|i: int| 0 <= i < table.len() && (#[trigger] table[i]).1 > 0
}

/// Construction has a leaf to start from exactly if a symbol occurs.
pub proof fn lemma_leaves_exist(table: Seq<(u8, u128)>)
    ensures
        leaf_slots(table).len() > 0 <==> has_occurring_symbol(table),
{
    if has_occurring_symbol(table) {
        let i = choose|i: int| 0 <= i < table.len() && (#[trigger] table[i]).1 > 0;
        lemma_leaf_of_entry(table, i);
    } else {
        lemma_no_leaf(table);
    }
}

/// A forest that has come down to a single tree is a tree, and its root is
/// the node that is left to select.
pub proof fn lemma_single_tree_is_tree(slots: Seq<Slot>, initial: Seq<Slot>)
    requires
        is_forest(slots, initial),
        is_single_tree(slots),
    ensures
        is_tree(nodes_of(slots), lightest(slots, None)->0 as int),
{
    let root = lightest(slots, None)->0;
    let nodes = nodes_of(slots);
    let last = slots.len() - 1;
    lemma_lightest_is_lightest(slots, None);
    if last != root {
        assert(is_candidate(slots, Some(root), last));
        lemma_lightest_exists(slots, Some(root), last);
    }
    assert(is_placed(slots, root as int));
    assert forall|child: int| 0 <= child < root implies #[trigger] has_one_parent(
        nodes,
        child,
    ) by {
        assert(is_placed(slots, child));
        if slots[child].available {
            assert(is_candidate(slots, Some(root), child));
            lemma_lightest_exists(slots, Some(root), child);
        }
    }
}

} // verus!
