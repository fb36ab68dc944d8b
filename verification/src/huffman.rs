//! Huffman coding of a stream of symbols.
//!
//! The symbols of a stream are counted and ranked, a code tree is built over
//! those that occur, and every symbol is given the path from the root to its
//! leaf as its code: `0` for a step to the left, `1` for a step to the right.

pub mod codes;
pub mod compress;
pub mod forest;
pub mod frequency;
pub mod laws;
pub mod mapping;
pub mod tree;

pub use codes::{assign_codes, decode, encode, encode_node, huffman};
pub use compress::{compress, encoding_to_string};
pub use frequency::{stats, FrequencyTable};
pub use tree::{build_tree, get_min, get_mins, HuffmanNode, HuffmanTree, Slot};
