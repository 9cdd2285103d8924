//! Static Huffman prefix coding: building an optimal code tree from a
//! frequency table, deriving its codebook, and encoding and decoding between
//! symbol sequences and bit sequences, together with MSB-first bit packing.
//!
//! The executable parts:
//! - [`bits`]: conversion between byte buffers and bit sequences;
//! - [`queue`]: the min-priority queue of subtrees that the builder merges
//!   from;
//! - [`coder`]: [`HuffmanTree`], with `build`, `encode`, `decode` and
//!   `decode_strict`.
//!
//! What they compute is defined on mathematical values:
//! - [`tree`]: the code tree, its symbols, paths and codebook;
//! - [`coding`]: encoding and decoding as functions on sequences;
//! - [`canonical`]: the tree that a frequency table determines.
//!
//! The laws that hold of these definitions are proved beside them. The proof
//! that the built tree is optimal takes three modules: [`exchange`] holds
//! the exchange argument on trees with weighted leaves, [`optimal`] lifts it
//! to code trees, and [`prefix_code`] to prefix-free codebooks of any shape.

pub mod bits;
pub mod canonical;
pub mod coder;
pub mod coding;
pub mod error;
pub mod exchange;
pub mod optimal;
pub mod prefix_code;
pub mod queue;
pub mod tree;

pub use crate::bits::{bits_to_bytes, bytes_to_bits};
pub use crate::coder::HuffmanTree;
pub use crate::error::HuffmanError;
pub use crate::tree::HuffmanNode;
