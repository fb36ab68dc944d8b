//! Codes: the table that a tree assigns, and coding streams with it.
//!
//! The code of a symbol is the path from the root of the tree to the leaf of
//! the symbol: `0` for a step to the left child, `1` for a step to the right
//! child. A tree that is a single leaf gives its symbol the code `0`.
//!
//! Decoding follows the bits of a stream down the tree. A bit of `0` leads to
//! the left child and any other bit to the right child. In a tree that is a
//! single leaf every bit stands for the symbol of that leaf.

use super::forest::{built, has_occurring_symbol, nodes_of};
use super::frequency::FrequencyTable;
use super::tree::{build_tree, lightest, HuffmanNode, HuffmanTree};
use crate::error::CodecError;
use vstd::prelude::*;

verus! {

/// What a code table in memory holds: for every entry the symbol and the
/// bits of its code.
pub open spec fn codes_of(table: Seq<(u8, Vec<u8>)>) -> Seq<(u8, Seq<u8>)> {
    Seq::new(table.len(), |k: int| (table[k].0, table[k].1@))
}

/// The codes of the leaves below node `i`, from left to right, each with
/// `prefix` before the path that leads from node `i` to the leaf.
pub open spec fn codes_from(nodes: Seq<HuffmanNode>, i: int, prefix: Seq<u8>) -> Seq<
    (u8, Seq<u8>),
>
    decreases i,
{
    if 0 <= i < nodes.len() {
        match nodes[i] {
            HuffmanNode::Leaf { symbol, .. } => seq![(symbol, prefix)],
            HuffmanNode::Internal { left, right, .. } => {
                if left < i && right < i {
                    codes_from(nodes, left as int, prefix.push(0)) + codes_from(
                        nodes,
                        right as int,
                        prefix.push(1),
                    )
                } else {
                    Seq::empty()
                }
            },
        }
    } else {
        Seq::empty()
    }
}

/// The code table of the tree with the given root.
pub open spec fn code_table(nodes: Seq<HuffmanNode>, root: int) -> Seq<(u8, Seq<u8>)> {
    match nodes[root] {
        HuffmanNode::Leaf { symbol, .. } => seq![(symbol, seq![0u8])],
        HuffmanNode::Internal { .. } => codes_from(nodes, root, Seq::empty()),
    }
}

/// The code table of the tree that construction makes of a frequency table.
pub open spec fn huffman_codes(table: Seq<(u8, u128)>) -> Seq<(u8, Seq<u8>)> {
    if has_occurring_symbol(table) {
        code_table(nodes_of(built(table)), lightest(built(table), None)->0 as int)
    } else {
        Seq::empty()
    }
}

/// The code of `symbol`: that of the first entry of the table for it.
pub open spec fn lookup(table: Seq<(u8, Seq<u8>)>, symbol: u8) -> Option<Seq<u8>>
    decreases table.len(),
{
    if table.len() == 0 {
        None
    } else if table[0].0 == symbol {
        Some(table[0].1)
    } else {
        lookup(table.drop_first(), symbol)
    }
}

/// The codes of the symbols, one after the other; nothing if a symbol has no
/// code.
pub open spec fn encoded(symbols: Seq<u8>, table: Seq<(u8, Seq<u8>)>) -> Option<Seq<u8>>
    decreases symbols.len(),
{
    if symbols.len() == 0 {
        Some(Seq::empty())
    } else {
        match (encoded(symbols.drop_last(), table), lookup(table, symbols.last())) {
            (Some(stream), Some(code)) => Some(stream + code),
            _ => None,
        }
    }
}

/// The node that a bit leads to from node `cursor`.
pub open spec fn child(nodes: Seq<HuffmanNode>, cursor: int, bit: u8) -> int {
    match nodes[cursor] {
        HuffmanNode::Leaf { .. } => cursor,
        HuffmanNode::Internal { left, right, .. } => if bit == 0 {
            left as int
        } else {
            right as int
        },
    }
}

/// `symbols` before what `rest` holds, if it holds anything.
pub open spec fn preceded(symbols: Seq<u8>, rest: Option<Seq<u8>>) -> Option<Seq<u8>> {
    match rest {
        Some(tail) => Some(symbols + tail),
        None => None,
    }
}

/// The symbols that `stream` stands for when it is read from node `cursor`
/// on; nothing if it ends in the middle of a code.
pub open spec fn decoded_from(
    nodes: Seq<HuffmanNode>,
    root: int,
    cursor: int,
    stream: Seq<u8>,
) -> Option<Seq<u8>>
    decreases stream.len(),
{
    if stream.len() == 0 {
        if cursor == root {
            Some(Seq::empty())
        } else {
            None
        }
    } else {
        let next = child(nodes, cursor, stream[0]);
        match nodes[next] {
            HuffmanNode::Leaf { symbol, .. } => preceded(
                seq![symbol],
                decoded_from(nodes, root, root, stream.drop_first()),
            ),
            HuffmanNode::Internal { .. } => decoded_from(nodes, root, next, stream.drop_first()),
        }
    }
}

/// The symbols that `stream` stands for; nothing if it ends in the middle of
/// a code.
pub open spec fn decoded(nodes: Seq<HuffmanNode>, root: int, stream: Seq<u8>) -> Option<Seq<u8>> {
    decoded_from(nodes, root, root, stream)
}

/// Lists the codes of the leaves below node `i`, from left to right. Each
/// code is `prefix` followed by the path from node `i` to the leaf.
pub fn encode_node(tree: &HuffmanTree, i: usize, prefix: Vec<u8>) -> (table: Vec<(u8, Vec<u8>)>)
    requires
        i < tree@.len(),
    ensures
        codes_of(table@) == codes_from(tree@, i as int, prefix@),
    decreases i,
{
    let nodes = tree.nodes();
    assert(super::forest::is_sound_node(nodes@, i as int));
    match nodes[i] {
        HuffmanNode::Leaf { symbol, .. } => {
            let mut table: Vec<(u8, Vec<u8>)> = Vec::new();
            table.push((symbol, prefix));
            assert(codes_of(table@) =~= codes_from(tree@, i as int, prefix@));
            table
        },
        HuffmanNode::Internal { left, right, .. } => {
            let mut to_left = prefix.clone();
            let mut to_right = prefix;
            assert(to_left@ =~= to_right@);
            to_left.push(0);
            to_right.push(1);
            let mut table = encode_node(tree, left, to_left);
            let mut right_table = encode_node(tree, right, to_right);
            let ghost left_codes = codes_of(table@);
            let ghost right_codes = codes_of(right_table@);
            table.append(&mut right_table);
            assert(codes_of(table@) =~= left_codes + right_codes);
            table
        },
    }
}

/// Assigns every symbol of the tree its code.
pub fn assign_codes(tree: &HuffmanTree) -> (table: Vec<(u8, Vec<u8>)>)
    ensures
        codes_of(table@) == code_table(tree@, tree.root_index()),
{
    let root = tree.root();
    let nodes = tree.nodes();
    match nodes[root] {
        HuffmanNode::Leaf { symbol, .. } => {
            let mut code: Vec<u8> = Vec::new();
            code.push(0);
            let mut table: Vec<(u8, Vec<u8>)> = Vec::new();
            table.push((symbol, code));
            assert(codes_of(table@) =~= code_table(tree@, tree.root_index()));
            table
        },
        HuffmanNode::Internal { .. } => encode_node(tree, root, Vec::new()),
    }
}

/// Gives every symbol that occurs its code.
pub fn huffman(stats: &FrequencyTable) -> (table: Vec<(u8, Vec<u8>)>)
    ensures
        codes_of(table@) == huffman_codes(stats@),
{
    match build_tree(stats) {
        Some(tree) => assign_codes(&tree),
        None => {
            let table: Vec<(u8, Vec<u8>)> = Vec::new();
            assert(codes_of(table@) =~= huffman_codes(stats@));
            table
        },
    }
}

/// Whether the table has an entry for `symbol`.
pub open spec fn has_code(table: Seq<(u8, Seq<u8>)>, symbol: u8) -> bool {
    exists|k: int| 0 <= k < table.len() && (#[trigger] table[k]).0 == symbol
}

/// The code that is looked up for a symbol is that of an entry for it.
pub proof fn lemma_lookup_found(table: Seq<(u8, Seq<u8>)>, symbol: u8) -> (k: int)
    requires
        lookup(table, symbol) is Some,
    ensures
        0 <= k < table.len(),
        table[k] == (symbol, lookup(table, symbol)->0),
    decreases table.len(),
{
    if table[0].0 == symbol {
        0
    } else {
        lemma_lookup_found(table.drop_first(), symbol) + 1
    }
}

/// A symbol with an entry in the table has a code.
pub proof fn lemma_lookup_finds(table: Seq<(u8, Seq<u8>)>, symbol: u8, k: int)
    requires
        0 <= k < table.len(),
        table[k].0 == symbol,
    ensures
        lookup(table, symbol) is Some,
    decreases table.len(),
{
    if table[0].0 != symbol {
        lemma_lookup_finds(table.drop_first(), symbol, k - 1);
    }
}

/// A stream of symbols that all have a code has a code.
pub proof fn lemma_encoded_exists(symbols: Seq<u8>, table: Seq<(u8, Seq<u8>)>)
    requires
        forall|n: int| 0 <= n < symbols.len() ==> lookup(table, #[trigger] symbols[n]) is Some,
    ensures
        encoded(symbols, table) is Some,
    decreases symbols.len(),
{
    if symbols.len() > 0 {
        lemma_encoded_exists(symbols.drop_last(), table);
    }
}

/// A symbol has a code exactly if the table has an entry for it.
pub proof fn lemma_lookup_is_some(table: Seq<(u8, Seq<u8>)>, symbol: u8)
    ensures
        lookup(table, symbol) is Some <==> has_code(table, symbol),
{
    if lookup(table, symbol) is Some {
        let k = lemma_lookup_found(table, symbol);
        assert(table[k].0 == symbol);
    }
    if has_code(table, symbol) {
        let k = choose|k: int| 0 <= k < table.len() && (#[trigger] table[k]).0 == symbol;
        lemma_lookup_finds(table, symbol, k);
    }
}

/// In a stream that has a code, every symbol has one.
pub proof fn lemma_encoded_covers(symbols: Seq<u8>, table: Seq<(u8, Seq<u8>)>, n: int)
    requires
        encoded(symbols, table) is Some,
        0 <= n < symbols.len(),
    ensures
        lookup(table, symbols[n]) is Some,
    decreases symbols.len(),
{
    if n < symbols.len() - 1 {
        lemma_encoded_covers(symbols.drop_last(), table, n);
    }
}

/// A stream in which a symbol has no code has no code itself, however it
/// goes on.
pub proof fn lemma_encoded_needs_prefix(symbols: Seq<u8>, table: Seq<(u8, Seq<u8>)>, end: int)
    requires
        0 <= end <= symbols.len(),
        encoded(symbols.take(end), table) is None,
    ensures
        encoded(symbols, table) is None,
    decreases symbols.len(),
{
    if end < symbols.len() {
        assert(symbols.drop_last().take(end) =~= symbols.take(end));
        lemma_encoded_needs_prefix(symbols.drop_last(), table, end);
    } else {
        assert(symbols.take(end) =~= symbols);
    }
}

/// Finds the code of `symbol` in the table.
fn find_code(table: &Vec<(u8, Vec<u8>)>, symbol: u8) -> (found: Option<usize>)
    ensures
        found matches Some(k) ==> k < table@.len() && lookup(codes_of(table@), symbol) == Some(
            table@[k as int].1@,
        ),
        found is None ==> lookup(codes_of(table@), symbol) is None,
{
    let mut k: usize = 0;
    proof {
        assert(codes_of(table@).skip(0) =~= codes_of(table@));
    }
    while k < table.len()
        invariant
            k <= table@.len(),
            lookup(codes_of(table@), symbol) == lookup(codes_of(table@).skip(k as int), symbol),
        decreases table@.len() - k,
    {
        proof {
            assert(codes_of(table@).skip(k as int).drop_first() =~= codes_of(table@).skip(k + 1));
        }
        if table[k].0 == symbol {
            return Some(k);
        }
        k += 1;
    }
    None
}

/// Replaces every symbol by its code.
pub fn encode(symbols: &Vec<u8>, table: &Vec<(u8, Vec<u8>)>) -> (result: Result<
    Vec<u8>,
    CodecError,
>)
    ensures
        result is Ok <==> forall|n: int|
            0 <= n < symbols@.len() ==> has_code(codes_of(table@), #[trigger] symbols@[n]),
        result matches Ok(stream) ==> encoded(symbols@, codes_of(table@)) == Some(stream@),
        result matches Err(e) ==> e == CodecError::UnknownSymbol && encoded(
            symbols@,
            codes_of(table@),
        ) is None,
{
    let mut stream: Vec<u8> = Vec::new();
    let mut n: usize = 0;
    while n < symbols.len()
        invariant
            n <= symbols@.len(),
            encoded(symbols@.take(n as int), codes_of(table@)) == Some(stream@),
        decreases symbols@.len() - n,
    {
        proof {
            assert(symbols@.take(n + 1).drop_last() =~= symbols@.take(n as int));
        }
        match find_code(table, symbols[n]) {
            Some(k) => {
                let code = &table[k].1;
                let ghost before = stream@;
                let mut b: usize = 0;
                while b < code.len()
                    invariant
                        b <= code@.len(),
                        stream@ == before + code@.take(b as int),
                    decreases code@.len() - b,
                {
                    stream.push(code[b]);
                    proof {
                        assert(stream@ =~= before + code@.take(b + 1));
                    }
                    b += 1;
                }
                proof {
                    assert(code@.take(b as int) =~= code@);
                }
            },
            None => {
                proof {
                    lemma_encoded_needs_prefix(symbols@, codes_of(table@), n + 1);
                    lemma_lookup_is_some(codes_of(table@), symbols@[n as int]);
                }
                return Err(CodecError::UnknownSymbol);
            },
        }
        n += 1;
    }
    proof {
        assert(symbols@.take(n as int) =~= symbols@);
        assert forall|m: int| 0 <= m < symbols@.len() implies has_code(
            codes_of(table@),
            #[trigger] symbols@[m],
        ) by {
            lemma_encoded_covers(symbols@, codes_of(table@), m);
            lemma_lookup_is_some(codes_of(table@), symbols@[m]);
        }
    }
    Ok(stream)
}

/// Reads the symbols that the stream stands for off the tree.
pub fn decode(stream: &Vec<u8>, tree: &HuffmanTree) -> (result: Result<Vec<u8>, CodecError>)
    ensures
        result matches Ok(symbols) ==> decoded(tree@, tree.root_index(), stream@) == Some(
            symbols@,
        ),
        result matches Err(e) ==> e == CodecError::TruncatedStream && decoded(
            tree@,
            tree.root_index(),
            stream@,
        ) is None,
{
    let nodes = tree.nodes();
    let root = tree.root();
    let mut symbols: Vec<u8> = Vec::new();
    let mut cursor: usize = root;
    let mut n: usize = 0;
    proof {
        assert(stream@.skip(0) =~= stream@);
        let all = decoded(nodes@, root as int, stream@);
        if let Some(tail) = all {
            assert(Seq::<u8>::empty() + tail =~= tail);
        }
    }
    while n < stream.len()
        invariant
            n <= stream@.len(),
            root < nodes@.len(),
            nodes@ == tree@,
            root == tree.root_index(),
            super::forest::is_arena(nodes@),
            cursor < nodes@.len(),
            decoded(nodes@, root as int, stream@) == preceded(
                symbols@,
                decoded_from(nodes@, root as int, cursor as int, stream@.skip(n as int)),
            ),
        decreases stream@.len() - n,
    {
        let ghost rest = decoded_from(nodes@, root as int, root as int, stream@.skip(n + 1));
        proof {
            assert(stream@.skip(n as int).drop_first() =~= stream@.skip(n + 1));
            assert(super::forest::is_sound_node(nodes@, cursor as int));
        }
        let next = match nodes[cursor] {
            HuffmanNode::Leaf { .. } => cursor,
            HuffmanNode::Internal { left, right, .. } => if stream[n] == 0 {
                left
            } else {
                right
            },
        };
        match nodes[next] {
            HuffmanNode::Leaf { symbol, .. } => {
                let ghost before = symbols@;
                symbols.push(symbol);
                cursor = root;
                proof {
                    if let Some(tail) = rest {
                        assert(before + (seq![symbol] + tail) =~= symbols@ + tail);
                    }
                }
            },
            HuffmanNode::Internal { .. } => {
                cursor = next;
            },
        }
        n += 1;
    }
    proof {
        assert(stream@.skip(n as int) =~= Seq::<u8>::empty());
    }
    if cursor == root {
        proof {
            assert(symbols@ + Seq::<u8>::empty() =~= symbols@);
        }
        Ok(symbols)
    } else {
        Err(CodecError::TruncatedStream)
    }
}

} // verus!
