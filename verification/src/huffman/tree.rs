//! The code tree and its construction.
//!
//! The nodes of a tree stand in one vector and name their children by
//! index. A child always stands before its parent.
//!
//! Construction starts from one leaf for every symbol that occurs, in the
//! order of the frequency table. It then joins, again and again, the two
//! lightest nodes that are still available into a new node, which is put at
//! the end of the vector, until one node is left: the root. Of nodes of equal
//! weight the one that stands first is taken first. Of the two nodes that are
//! joined, the lighter one (the one taken first) becomes the right child.

use super::forest::{
    available_count, built, has_occurring_symbol, is_forest, is_tree, leaf_slots,
    lemma_initial_forest, lemma_leaves_exist, lemma_lightest_is_lightest, lemma_merge_step,
    lemma_merged_forest, lemma_single_tree_is_tree, merge_step, merged, nodes_of,
};
use super::frequency::FrequencyTable;
use vstd::pervasive::unreached;
use vstd::prelude::*;

verus! {

/// A node of a code tree.
#[derive(Clone, Copy, Debug, PartialEq, Eq, Structural)]
pub enum HuffmanNode {
    /// A symbol and how often it occurs.
    Leaf { symbol: u8, frequency: u128 },
    /// Two subtrees, named by the indices of their roots, and how often the
    /// symbols below them occur together.
    Internal { frequency: u128, left: usize, right: usize },
}

impl HuffmanNode {
    /// How often the symbols below this node occur.
    pub open spec fn weight(self) -> u128 {
        match self {
            HuffmanNode::Leaf { frequency, .. } => frequency,
            HuffmanNode::Internal { frequency, .. } => frequency,
        }
    }

    /// How often the symbols below this node occur.
    pub fn frequency(&self) -> (frequency: u128)
        ensures
            frequency == self.weight(),
    {
        match self {
            HuffmanNode::Leaf { frequency, .. } => *frequency,
            HuffmanNode::Internal { frequency, .. } => *frequency,
        }
    }
}

/// A node under construction: a node is available until it has been joined
/// with another one.
#[derive(Clone, Copy, Debug, PartialEq, Eq, Structural)]
pub struct Slot {
    pub available: bool,
    pub node: HuffmanNode,
}

/// Whether slot `j` can be selected: it is available and not the one to
/// ignore.
pub open spec fn is_candidate(slots: Seq<Slot>, ignore: Option<usize>, j: int) -> bool {
    0 <= j < slots.len() && slots[j].available && ignore != Some(j as usize)
}

/// Whether slot `m` is the one to select: the first of the lightest
/// candidates.
pub open spec fn is_lightest(slots: Seq<Slot>, ignore: Option<usize>, m: int) -> bool {
    &&& is_candidate(slots, ignore, m)
    &&& forall|j: int| #[trigger]
        is_candidate(slots, ignore, j) ==> slots[m].node.weight() < slots[j].node.weight() || (
        slots[m].node.weight() == slots[j].node.weight() && m <= j)
}

/// The slot to select, if there is a candidate.
pub open spec fn lightest(slots: Seq<Slot>, ignore: Option<usize>) -> Option<usize> {
    if exists|m: int| is_lightest(slots, ignore, m) {
        Some((choose|m: int| is_lightest(slots, ignore, m)) as usize)
    } else {
        None
    }
}

/// There is at most one slot to select.
pub proof fn lemma_lightest_is_unique(slots: Seq<Slot>, ignore: Option<usize>, m: int)
    requires
        is_lightest(slots, ignore, m),
        slots.len() <= usize::MAX,
    ensures
        lightest(slots, ignore) == Some(m as usize),
{
    let chosen = choose|c: int| is_lightest(slots, ignore, c);
    assert(is_lightest(slots, ignore, chosen));
    assert(is_candidate(slots, ignore, m));
    assert(is_candidate(slots, ignore, chosen));
}

/// Without a candidate there is no slot to select.
pub proof fn lemma_lightest_of_none(slots: Seq<Slot>, ignore: Option<usize>)
    requires
        forall|j: int| !is_candidate(slots, ignore, j),
    ensures
        lightest(slots, ignore) is None,
{
}

/// Finds the available node of the smallest frequency, other than the one
/// to ignore. Of several such nodes it finds the first.
pub fn get_min(nodes: &Vec<Slot>, ignore: Option<usize>) -> (min: Option<usize>)
    ensures
        min == lightest(nodes@, ignore),
        min matches Some(m) ==> is_lightest(nodes@, ignore, m as int),
        min is None ==> forall|j: int| !is_candidate(nodes@, ignore, j),
{
    let mut min: Option<usize> = None;
    let mut j: usize = 0;
    while j < nodes.len()
        invariant
            j <= nodes@.len(),
            min matches Some(m) ==> m < j && is_lightest(nodes@.take(j as int), ignore, m as int),
            min is None ==> forall|c: int| !is_candidate(nodes@.take(j as int), ignore, c),
        decreases nodes@.len() - j,
    {
        let ghost seen = nodes@.take(j as int);
        let ghost next = nodes@.take(j + 1);
        let ghost old_min = min;
        let ignored = match ignore {
            Some(skip) => skip == j,
            None => false,
        };
        if nodes[j].available && !ignored {
            match min {
                None => {
                    min = Some(j);
                },
                Some(m) => {
                    if nodes[j].node.frequency() < nodes[m].node.frequency() {
                        min = Some(j);
                    }
                },
            }
        }
        proof {
            assert forall|c: int| #[trigger] is_candidate(next, ignore, c) implies c == j
                || is_candidate(seen, ignore, c) by {}
            assert forall|c: int| #[trigger] is_candidate(seen, ignore, c) implies is_candidate(
                next,
                ignore,
                c,
            ) by {}
            if let Some(m) = old_min {
                assert(is_candidate(seen, ignore, m as int));
            }
        }
        j += 1;
    }
    proof {
        assert(nodes@.take(j as int) =~= nodes@);
        match min {
            Some(m) => {
                lemma_lightest_is_unique(nodes@, ignore, m as int);
            },
            None => {
                lemma_lightest_of_none(nodes@, ignore);
            },
        }
    }
    min
}

/// Finds the two available nodes of the smallest frequencies: the lightest
/// one, and the lightest of the others.
pub fn get_mins(nodes: &Vec<Slot>) -> (mins: (Option<usize>, Option<usize>))
    ensures
        mins.0 == lightest(nodes@, None),
        mins.1 == (match mins.0 {
            Some(first) => lightest(nodes@, Some(first)),
            None => None,
        }),
{
    let first = get_min(nodes, None);
    let second = match first {
        Some(index) => get_min(nodes, Some(index)),
        None => None,
    };
    (first, second)
}

/// A code tree: the nodes, and which of them is the root.
///
/// Every node that joins two others stands behind both, and its frequency
/// is the sum of theirs. The root stands last. Every node but the root is
/// joined with another by exactly one node.
pub struct HuffmanTree {
    nodes: Vec<HuffmanNode>,
    root: usize,
}

impl View for HuffmanTree {
    type V = Seq<HuffmanNode>;

    closed spec fn view(&self) -> Seq<HuffmanNode> {
        self.nodes@
    }
}

impl HuffmanTree {
    #[verifier::type_invariant]
    spec fn sound(&self) -> bool {
        is_tree(self.nodes@, self.root as int)
    }

    /// The index of the root.
    pub closed spec fn root_index(&self) -> int {
        self.root as int
    }

    /// Whether this is the tree that construction makes of `table`.
    pub open spec fn is_built_from(&self, table: Seq<(u8, u128)>) -> bool {
        &&& self@ == nodes_of(built(table))
        &&& lightest(built(table), None) is Some
        &&& self.root_index() == lightest(built(table), None)->0
    }

    /// The nodes of the tree.
    pub fn nodes(&self) -> (nodes: &Vec<HuffmanNode>)
        ensures
            nodes@ == self@,
            is_tree(self@, self.root_index()),
    {
        proof {
            use_type_invariant(self);
        }
        &self.nodes
    }

    /// The index of the root among the nodes.
    pub fn root(&self) -> (root: usize)
        ensures
            root == self.root_index(),
            is_tree(self@, self.root_index()),
    {
        proof {
            use_type_invariant(self);
        }
        self.root
    }
}

/// Builds the code tree of the symbols that occur. Without such a symbol
/// there is no tree.
pub fn build_tree(table: &FrequencyTable) -> (tree: Option<HuffmanTree>)
    ensures
        tree is Some <==> has_occurring_symbol(table@),
        tree matches Some(t) ==> t.is_built_from(table@),
{
    proof {
        lemma_leaves_exist(table@);
    }
    let entries = table.entries();
    let mut slots: Vec<Slot> = Vec::new();
    let mut k: usize = 0;
    while k < entries.len()
        invariant
            k <= entries@.len(),
            slots@ == leaf_slots(entries@.take(k as int)),
        decreases entries@.len() - k,
    {
        let (symbol, frequency) = entries[k];
        proof {
            assert(entries@.take(k + 1).drop_last() =~= entries@.take(k as int));
        }
        if frequency > 0 {
            slots.push(Slot { available: true, node: HuffmanNode::Leaf { symbol, frequency } });
        }
        k += 1;
    }
    proof {
        assert(entries@.take(k as int) =~= entries@);
    }
    if slots.len() == 0 {
        return None;
    }
    let ghost initial = slots@;
    proof {
        lemma_initial_forest(table@);
    }
    loop
        invariant
            initial == leaf_slots(table@),
            is_forest(slots@, initial),
            merged(initial, initial.len()) == merged(slots@, available_count(slots@)),
        ensures
            is_forest(slots@, initial),
            slots@ == built(table@),
        decreases available_count(slots@),
    {
        let (first, second) = get_mins(&slots);
        match (first, second) {
            (Some(a), Some(b)) => {
                let ghost before = slots@;
                proof {
                    lemma_lightest_is_lightest(before, None);
                    lemma_lightest_is_lightest(before, Some(a));
                    lemma_merge_step(before, initial, a as int, b as int);
                }
                let lighter = slots[a].node;
                let other = slots[b].node;
                let frequency = lighter.frequency() + other.frequency();
                slots.set(a, Slot { available: false, node: lighter });
                slots.set(b, Slot { available: false, node: other });
                slots.push(
                    Slot {
                        available: true,
                        node: HuffmanNode::Internal { frequency, left: b, right: a },
                    },
                );
                proof {
                    assert(slots@ =~= merge_step(before, a as int, b as int));
                }
            },
            _ => {
                break ;
            },
        }
    }
    proof {
        lemma_merged_forest(initial, initial, initial.len());
        lemma_single_tree_is_tree(slots@, initial);
    }
    let root = match get_min(&slots, None) {
        Some(root) => root,
        None => unreached(),
    };
    let mut nodes: Vec<HuffmanNode> = Vec::new();
    let mut i: usize = 0;
    while i < slots.len()
        invariant
            i <= slots@.len(),
            nodes@ == nodes_of(slots@).take(i as int),
        decreases slots@.len() - i,
    {
        nodes.push(slots[i].node);
        proof {
            assert(nodes@ =~= nodes_of(slots@).take(i + 1));
        }
        i += 1;
    }
    proof {
        assert(nodes@ =~= nodes_of(slots@));
    }
    Some(HuffmanTree { nodes, root })
}

} // verus!
