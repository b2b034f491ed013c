//! What the operations and the network are for.
//!
//! Each law speaks of inputs and results in the operations of the number type alone: which numbers
//! are added, multiplied, divided and compared, and where they stand.
pub mod attention;
pub mod fingerprints;
pub mod loading;
pub mod network;
pub mod parts;
pub mod peer;
pub mod rows;
pub mod sums;
