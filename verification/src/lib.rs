//! Sparse-matrix kernels on the compressed-sparse-row format, over the ring of
//! 64-bit two's-complement integers.
//!
//! Every kernel has the shape `C <- beta * C + alpha * op(A) [* op(B)]`. The
//! contracts state the outcome over [`model::MatrixView`], a mathematical
//! matrix, and over exact integer sums that are reduced into the ring once.

pub mod csr;
pub mod dense;
pub mod error;
pub mod laws;
pub mod model;
pub mod ops;
pub mod scalar;
pub mod spadd;
pub mod spmm;
pub mod spmm_dense;
pub mod transpose;
