use bitcodec::error::CodecError;
use bitcodec::huffman::{
    assign_codes, build_tree, compress, decode, encode, encode_node, encoding_to_string, get_min,
    get_mins, huffman, stats, HuffmanNode, Slot,
};

fn leaf(symbol: u8, frequency: u128) -> HuffmanNode {
    HuffmanNode::Leaf { symbol, frequency }
}

fn slot(available: bool, frequency: u128) -> Slot {
    Slot { available, node: leaf(0, frequency) }
}

fn is_prefix(a: &[u8], b: &[u8]) -> bool {
    a.len() <= b.len() && &b[..a.len()] == a
}

#[test]
fn stats_counts_every_symbol_value() {
    let table = stats(&vec![0, 0, 0, 1]);
    let entries = table.entries();
    assert_eq!(entries.len(), 256);
    assert_eq!(entries[0], (0, 3));
    assert_eq!(entries[1], (1, 1));
    for (i, entry) in entries.iter().enumerate().skip(2) {
        assert_eq!(*entry, (i as u8, 0));
    }
}

#[test]
fn stats_ranks_by_count_then_by_symbol() {
    let table = stats(&b"abracadabra".to_vec());
    let entries = table.entries();
    assert_eq!(&entries[..6], &[(97, 5), (98, 2), (114, 2), (99, 1), (100, 1), (0, 0)]);
    assert_eq!(entries[255], (255, 0));
}

#[test]
fn stats_of_nothing_lists_every_symbol_with_zero() {
    let table = stats(&Vec::new());
    let entries = table.entries();
    assert_eq!(entries.len(), 256);
    for (i, entry) in entries.iter().enumerate() {
        assert_eq!(*entry, (i as u8, 0));
    }
}

#[test]
fn frequency_reads_both_kinds_of_node() {
    assert_eq!(leaf(3, 9).frequency(), 9);
    assert_eq!(HuffmanNode::Internal { frequency: 12, left: 0, right: 1 }.frequency(), 12);
}

#[test]
fn get_min_finds_the_first_of_the_lightest() {
    let nodes = vec![slot(true, 5), slot(true, 2), slot(true, 7), slot(true, 2)];
    assert_eq!(get_min(&nodes, None), Some(1));
    assert_eq!(get_min(&nodes, Some(1)), Some(3));
    assert_eq!(get_min(&nodes, Some(0)), Some(1));
}

#[test]
fn get_min_passes_over_nodes_that_are_not_available() {
    let nodes = vec![slot(false, 1), slot(true, 4), slot(false, 2), slot(true, 3)];
    assert_eq!(get_min(&nodes, None), Some(3));
    assert_eq!(get_min(&nodes, Some(3)), Some(1));
}

#[test]
fn get_min_finds_nothing_without_a_candidate() {
    assert_eq!(get_min(&Vec::new(), None), None);
    assert_eq!(get_min(&vec![slot(false, 1)], None), None);
    assert_eq!(get_min(&vec![slot(true, 1)], Some(0)), None);
}

#[test]
fn get_mins_finds_the_two_lightest() {
    let nodes = vec![slot(true, 5), slot(true, 2), slot(true, 7), slot(true, 2)];
    assert_eq!(get_mins(&nodes), (Some(1), Some(3)));
    assert_eq!(get_mins(&vec![slot(true, 3), slot(true, 1)]), (Some(1), Some(0)));
    assert_eq!(get_mins(&vec![slot(true, 3)]), (Some(0), None));
    assert_eq!(get_mins(&Vec::new()), (None, None));
}

#[test]
fn stream_0001_gives_a_tree_of_two_leaves() {
    let data = vec![0, 0, 0, 1];
    let table = stats(&data);
    let tree = build_tree(&table).unwrap();
    assert_eq!(
        tree.nodes(),
        &vec![leaf(0, 3), leaf(1, 1), HuffmanNode::Internal { frequency: 4, left: 0, right: 1 }]
    );
    assert_eq!(tree.root(), 2);
    let codes = assign_codes(&tree);
    assert_eq!(codes, vec![(0, vec![0]), (1, vec![1])]);
    assert_eq!(huffman(&table), codes);
    assert_eq!(encode(&data, &codes), Ok(vec![0, 0, 0, 1]));
    assert_eq!(decode(&vec![0, 0, 0, 1], &tree), Ok(data));
}

#[test]
fn build_tree_joins_the_lightest_nodes_first() {
    let table = stats(&b"abracadabra".to_vec());
    let tree = build_tree(&table).unwrap();
    assert_eq!(
        tree.nodes(),
        &vec![
            leaf(97, 5),
            leaf(98, 2),
            leaf(114, 2),
            leaf(99, 1),
            leaf(100, 1),
            HuffmanNode::Internal { frequency: 2, left: 4, right: 3 },
            HuffmanNode::Internal { frequency: 4, left: 2, right: 1 },
            HuffmanNode::Internal { frequency: 6, left: 6, right: 5 },
            HuffmanNode::Internal { frequency: 11, left: 7, right: 0 },
        ]
    );
    assert_eq!(tree.root(), 8);
}

#[test]
fn build_tree_takes_the_first_of_equal_weights() {
    let table = stats(&vec![1, 2, 3, 4]);
    let tree = build_tree(&table).unwrap();
    assert_eq!(
        tree.nodes(),
        &vec![
            leaf(1, 1),
            leaf(2, 1),
            leaf(3, 1),
            leaf(4, 1),
            HuffmanNode::Internal { frequency: 2, left: 1, right: 0 },
            HuffmanNode::Internal { frequency: 2, left: 3, right: 2 },
            HuffmanNode::Internal { frequency: 4, left: 5, right: 4 },
        ]
    );
    assert_eq!(
        assign_codes(&tree),
        vec![(4, vec![0, 0]), (3, vec![0, 1]), (2, vec![1, 0]), (1, vec![1, 1])]
    );
}

#[test]
fn frequency_of_a_join_is_the_sum_of_its_children() {
    let table = stats(&b"so many symbols, so little time".to_vec());
    let tree = build_tree(&table).unwrap();
    let nodes = tree.nodes();
    for (i, node) in nodes.iter().enumerate() {
        if let HuffmanNode::Internal { frequency, left, right } = node {
            assert!(*left < i && *right < i);
            assert_eq!(*frequency, nodes[*left].frequency() + nodes[*right].frequency());
        }
    }
    assert_eq!(nodes[tree.root()].frequency(), 31);
}

#[test]
fn build_tree_of_no_symbols_is_no_tree() {
    assert!(build_tree(&stats(&Vec::new())).is_none());
    assert_eq!(huffman(&stats(&Vec::new())), Vec::new());
}

#[test]
fn single_symbol_gets_the_code_0() {
    let data = vec![7, 7, 7];
    let table = stats(&data);
    let tree = build_tree(&table).unwrap();
    assert_eq!(tree.nodes(), &vec![leaf(7, 3)]);
    assert_eq!(tree.root(), 0);
    let codes = huffman(&table);
    assert_eq!(codes, vec![(7, vec![0])]);
    let stream = encode(&data, &codes).unwrap();
    assert_eq!(stream, vec![0, 0, 0]);
    assert_eq!(decode(&stream, &tree), Ok(data));
}

#[test]
fn encode_node_lists_the_leaves_from_left_to_right() {
    let table = stats(&b"abracadabra".to_vec());
    let tree = build_tree(&table).unwrap();
    assert_eq!(
        encode_node(&tree, 8, Vec::new()),
        vec![
            (114, vec![0, 0, 0]),
            (98, vec![0, 0, 1]),
            (100, vec![0, 1, 0]),
            (99, vec![0, 1, 1]),
            (97, vec![1]),
        ]
    );
    assert_eq!(encode_node(&tree, 5, vec![1, 1]), vec![(100, vec![1, 1, 0]), (99, vec![1, 1, 1])]);
    assert_eq!(encode_node(&tree, 0, vec![1, 0]), vec![(97, vec![1, 0])]);
    assert_eq!(encode_node(&tree, 0, Vec::new()), vec![(97, Vec::new())]);
}

#[test]
fn encode_replaces_each_symbol_by_its_code() {
    let data = b"abracadabra".to_vec();
    let codes = huffman(&stats(&data));
    assert_eq!(
        encode(&data, &codes),
        Ok(vec![1, 0, 0, 1, 0, 0, 0, 1, 0, 1, 1, 1, 0, 1, 0, 1, 0, 0, 1, 0, 0, 0, 1])
    );
    assert_eq!(encode(&Vec::new(), &codes), Ok(Vec::new()));
}

#[test]
fn encode_takes_the_first_entry_of_a_symbol() {
    let codes = vec![(1, vec![0]), (2, vec![1, 0]), (1, vec![1, 1])];
    assert_eq!(encode(&vec![1, 2, 1], &codes), Ok(vec![0, 1, 0, 0]));
}

#[test]
fn encode_rejects_a_symbol_without_a_code() {
    let codes = huffman(&stats(&vec![0, 0, 0, 1]));
    assert_eq!(encode(&vec![0, 2, 1], &codes), Err(CodecError::UnknownSymbol));
    assert_eq!(encode(&vec![5], &Vec::new()), Err(CodecError::UnknownSymbol));
}

#[test]
fn decode_rejects_a_stream_that_ends_inside_a_code() {
    let tree = build_tree(&stats(&b"abracadabra".to_vec())).unwrap();
    assert_eq!(decode(&vec![1, 0, 0], &tree), Err(CodecError::TruncatedStream));
    assert_eq!(decode(&vec![0], &tree), Err(CodecError::TruncatedStream));
    assert_eq!(decode(&vec![1, 0, 0, 1], &tree), Ok(vec![97, 98]));
}

#[test]
fn decode_of_nothing_is_nothing() {
    let tree = build_tree(&stats(&vec![0, 0, 0, 1])).unwrap();
    assert_eq!(decode(&Vec::new(), &tree), Ok(Vec::new()));
}

#[test]
fn decode_goes_right_on_any_bit_but_0() {
    let tree = build_tree(&stats(&vec![0, 0, 0, 1])).unwrap();
    assert_eq!(decode(&vec![0, 1, 2, 255], &tree), Ok(vec![0, 1, 1, 1]));
}

#[test]
fn decode_inverts_encode() {
    let mut data: Vec<u8> = Vec::new();
    let mut state: u32 = 12345;
    for _ in 0..5000 {
        state = state.wrapping_mul(1103515245).wrapping_add(12345);
        let value = (state >> 16) as u8;
        data.push(if value < 200 { value % 7 } else { value });
    }
    let table = stats(&data);
    let tree = build_tree(&table).unwrap();
    let codes = assign_codes(&tree);
    let stream = encode(&data, &codes).unwrap();
    assert!(stream.iter().all(|bit| *bit <= 1));
    assert!(stream.len() < 8 * data.len());
    assert_eq!(decode(&stream, &tree), Ok(data));
}

#[test]
fn decode_inverts_encode_on_all_symbol_values() {
    let mut data: Vec<u8> = Vec::new();
    for symbol in 0..=255u8 {
        for _ in 0..=(symbol as usize % 5) {
            data.push(symbol);
        }
    }
    let table = stats(&data);
    let tree = build_tree(&table).unwrap();
    let codes = huffman(&table);
    assert_eq!(codes.len(), 256);
    assert_eq!(tree.nodes().len(), 511);
    let stream = encode(&data, &codes).unwrap();
    assert_eq!(decode(&stream, &tree), Ok(data));
}

#[test]
fn no_code_is_the_beginning_of_another() {
    let data = b"the quick brown fox jumps over the lazy dog".to_vec();
    let codes = huffman(&stats(&data));
    for (i, (a, code_a)) in codes.iter().enumerate() {
        assert!(!code_a.is_empty());
        for (j, (b, code_b)) in codes.iter().enumerate() {
            if i != j {
                assert_ne!(a, b);
                assert!(!is_prefix(code_a, code_b));
            }
        }
    }
}

#[test]
fn skewed_frequencies_give_a_deep_tree() {
    let mut data: Vec<u8> = Vec::new();
    let mut run: usize = 1;
    for symbol in 0..12u8 {
        for _ in 0..run {
            data.push(symbol);
        }
        run *= 2;
    }
    let table = stats(&data);
    let tree = build_tree(&table).unwrap();
    let codes = assign_codes(&tree);
    let longest = codes.iter().map(|(_, code)| code.len()).max().unwrap();
    assert_eq!(longest, 11);
    let stream = encode(&data, &codes).unwrap();
    assert_eq!(decode(&stream, &tree), Ok(data));
}

#[test]
fn encoding_to_string_lists_symbol_code_and_frequency() {
    let table = stats(&vec![0, 0, 0, 1]);
    let codes = huffman(&table);
    assert_eq!(
        encoding_to_string(&table, &codes),
        "00000000 \t (000): \t 0 \t 3\n00000001 \t (001): \t 1 \t 1\n"
    );
}

#[test]
fn encoding_to_string_follows_the_order_of_the_table() {
    let table = stats(&b"abracadabra".to_vec());
    let codes = huffman(&table);
    assert_eq!(
        encoding_to_string(&table, &codes),
        "01100001 \t (097): \t 1 \t 5\n01100010 \t (098): \t 001 \t 2\n01110010 \t (114): \t 000 \t 2\n01100011 \t (099): \t 011 \t 1\n01100100 \t (100): \t 010 \t 1\n"
    );
}

#[test]
fn encoding_to_string_writes_long_frequencies() {
    let data = vec![200u8; 1234];
    let table = stats(&data);
    let codes = huffman(&table);
    assert_eq!(encoding_to_string(&table, &codes), "11001000 \t (200): \t 0 \t 1234\n");
}

#[test]
fn encoding_to_string_without_codes_is_empty() {
    let table = stats(&vec![1, 2, 3]);
    assert_eq!(encoding_to_string(&table, &Vec::new()), "");
}

#[test]
fn compress_packs_counts_and_encodes() {
    // the symbols 0, 0, 0, 1 as bits
    let mut bits = vec![0u8; 32];
    bits[31] = 1;
    let (stream, listing) = compress(bits);
    assert_eq!(stream, vec![0, 0, 0, 1]);
    assert_eq!(listing, "00000000 \t (000): \t 0 \t 3\n00000001 \t (001): \t 1 \t 1\n");
}

#[test]
fn compress_drops_bits_that_fill_no_symbol() {
    let mut bits = vec![0u8; 32];
    bits[31] = 1;
    bits.extend([1, 1, 1]);
    let (stream, _) = compress(bits);
    assert_eq!(stream, vec![0, 0, 0, 1]);
}

#[test]
fn compress_of_nothing_is_nothing() {
    let (stream, listing) = compress(Vec::new());
    assert!(stream.is_empty());
    assert_eq!(listing, "");
}

#[test]
fn every_node_but_the_root_has_one_parent() {
    let table = stats(&b"a tree is a forest of one".to_vec());
    let tree = build_tree(&table).unwrap();
    let nodes = tree.nodes();
    assert_eq!(tree.root(), nodes.len() - 1);
    let mut parents = vec![0usize; nodes.len()];
    for node in nodes.iter() {
        if let HuffmanNode::Internal { left, right, .. } = node {
            assert_ne!(left, right);
            parents[*left] += 1;
            parents[*right] += 1;
        }
    }
    for (i, count) in parents.iter().enumerate() {
        assert_eq!(*count, if i == tree.root() { 0 } else { 1 });
    }
}

#[test]
fn encoded_stream_is_as_short_as_a_prefix_code_can_make_it() {
    let data = b"it was the best of times, it was the worst of times".to_vec();
    let table = stats(&data);
    let codes = huffman(&table);
    let stream = encode(&data, &codes).unwrap();
    // The least cost of a prefix code is the sum of the weights of all
    // joins when the two lightest weights are joined again and again.
    let mut weights: Vec<u128> =
        table.entries().iter().map(|entry| entry.1).filter(|count| *count > 0).collect();
    let mut least: u128 = 0;
    while weights.len() > 1 {
        weights.sort();
        let joined = weights[0] + weights[1];
        least += joined;
        weights.drain(..2);
        weights.push(joined);
    }
    assert_eq!(stream.len() as u128, least);
}

#[test]
fn more_frequent_symbols_have_no_longer_codes() {
    let data = b"it was the best of times, it was the worst of times".to_vec();
    let table = stats(&data);
    let codes = huffman(&table);
    let length = |symbol: u8| codes.iter().find(|(s, _)| *s == symbol).unwrap().1.len();
    let entries = table.entries();
    for pair in entries.windows(2) {
        if pair[1].1 > 0 && pair[0].1 > pair[1].1 {
            assert!(length(pair[0].0) <= length(pair[1].0));
        }
    }
}
