//! A compact, tree-structured encoding for sorted sets of `u32` values
//! (a "sparse bit set"), together with its decoder.
//!
//! The encoder turns a set of integers into a sequence of fixed-width tree
//! nodes for a chosen branch factor and serializes them root-to-leaf into a
//! bitstream; the decoder walks that bitstream breadth-first and rebuilds the
//! set. Every function is verified against a mathematical model of the wire
//! format.

pub mod bit_stream;
pub mod bits;
pub mod branch_factor;
pub mod codec;
pub mod int_set;

pub use branch_factor::BranchFactor;
pub use codec::branch_factor_node_size_log2;
pub use codec::create_layer;
pub use codec::from_sparse_bit_set;
pub use codec::to_sparse_bit_set;
pub use codec::to_sparse_bit_set_internal;
pub use codec::to_sparse_bit_set_with_bf;
pub use codec::tree_height_for;
pub use codec::DecodingError;
pub use codec::Node;
pub use int_set::IntSet;
