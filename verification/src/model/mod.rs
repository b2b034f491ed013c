//! The network.
pub mod attention;
pub mod cached;
pub mod embedding;
pub mod gpt2;
pub mod layer;
pub mod layer_norm;
pub mod linear;
pub mod mlp;
pub mod rows;
pub mod shaped;
pub mod stack;

pub use attention::Attention;
pub use embedding::Embedding;
pub use gpt2::Gpt2;
pub use layer::Gpt2Layer;
pub use layer_norm::LayerNorm;
pub use linear::{Linear, UnbiasedLinear};
pub use mlp::Mlp;
pub use stack::Gpt2Model;
