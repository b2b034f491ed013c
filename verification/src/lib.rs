//! GPT-2 inference over dense row-major tensors, generic in the number type.
//!
//! `scalar` says what a number type must offer, and `trace` is one that tells apart what was
//! computed in different ways. `shape` and `tensor` hold the data, `ops` the tensor operations and
//! `model` the network built from them. `weights` reads the network's tensors, `wire` writes
//! numbers for a remote peer and reads its replies, and `blas` chooses how to ask a BLAS library
//! for a product. `laws` says, number by number, what the operations and the network are for.
pub mod blas;
pub mod laws;
pub mod model;
pub mod ops;
pub mod scalar;
pub mod shape;
pub mod tensor;
pub mod trace;
pub mod weights;
pub mod wire;
