//! Precomputation for multi-scalar multiplication: clustering the points of
//! a batch by the chunks of their scalars, and laying the clusters out in
//! flat arrays with a row-pointer array.

pub mod cluster;
pub mod csr;
pub mod decompose;
pub mod error;
pub mod laws;
pub mod order;
pub mod row;
pub mod words;

pub use crate::csr::{all_precomputation, AllPrecomputeResult};
pub use crate::decompose::{decompose_scalars, to_words_le};
pub use crate::error::PrecomputeError;
pub use crate::row::{precompute_with_cluster_method, RowResult};
pub use crate::words::extract_word_from_bytes_le;
