//! Binary transforms for a bit-encoded text transmission: Hamming(7,4) error
//! correction, bit packing, a one-time-pad stream cipher and Huffman coding.
//!
//! A bit vector is a sequence of `u8` values, each of which stands for one
//! bit; a symbol is a `u8` that stands for eight of them.

pub mod bits;
pub mod cipher;
pub mod error;
pub mod hamming;
pub mod huffman;
pub mod packer;
mod text;
pub mod vigenere;
