//! Stratified fixed/dynamic coding: a prefix code over bytes whose codewords are
//! stored bit position by bit position in parallel layers, so that any single
//! position or contiguous range can be decoded without decoding the rest.
//!
//! - [`huffman`]: the code tree of a text and its codewords;
//! - [`queue`]: the minimum-first queue that the tree is built with;
//! - [`layer`]: one bit-packed layer;
//! - [`layout`]: where each bit of each codeword stands in the layers;
//! - [`codec`]: encoding a text and decoding positions and ranges;
//! - [`laws`]: what holds of all of them together.

pub mod layer;
pub mod queue;
pub mod huffman;
pub mod layout;
pub mod codec;
pub mod laws;

pub use codec::{Sfdc, SfdcError};
pub use huffman::{HuffmanNode, HuffmanTree};
pub use layer::SfdcLayer;
