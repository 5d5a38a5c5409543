//! Huffman compression: bit streams, the Huffman tree, the container
//! format and the command-line argument rules, with their contracts.
pub mod file;
pub mod error;
pub mod huffman;
pub mod util;
pub mod codec;
