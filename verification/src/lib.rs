//! A small next-token predictor: a frequency trie is built from an observed
//! token stream, one trie (`Context`) per distinct starting token, pooled in
//! a `PoolContexts`. A query walks the trie along a prefix and returns the
//! most frequently observed continuation.

pub mod node;
pub mod context;
pub mod pool;
pub mod tokens;

pub use node::Token;
pub use context::Context;
pub use context::CreateError;
pub use pool::PoolContexts;
