//! Operations on tensors.
pub mod activation;
pub mod attention;
pub mod causal;
pub mod elementwise;
pub mod heads;
pub mod incremental;
pub mod normalize;
pub mod pick;
pub mod product;
pub mod softmax;

pub use activation::{faster_tanh, gelu};
pub use attention::attention;
pub use elementwise::{add, mul};
pub use heads::split_qkv;
pub use normalize::normalize;
pub use pick::{select, special_argmax};
pub use product::{addmm, g_matmul, matmul, matmul_t};
pub use softmax::{causal_softmax, softmax};
