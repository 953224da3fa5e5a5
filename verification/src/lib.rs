//! A byte-oriented lossless compressor built on a binary prefix code.
//!
//! Each distinct byte of the input is assigned a variable-length code read
//! off a binary tree; the compressed stream carries the tree itself and then
//! the concatenated codes, packed into octets least significant bit first.

pub mod binarytree;
pub mod bitpack;
pub mod compressor;
pub mod decompressor;
pub mod error;
pub mod savebits;
