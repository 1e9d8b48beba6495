//! Core data structures of a prefix-code compressor: a growable bit buffer
//! with a fixed byte layout, and a Huffman code builder.

pub mod dynamic_bitset;
pub mod huffman_tree;
pub mod le_word;
