//! A keyed, invertible pseudo-random permutation of the integers `[0, n)`.
//!
//! The permutation is a three-round Feistel network over the smallest
//! power-of-4 domain covering `[0, n)`, whose round function mixes a round key
//! through a cryptographic hash; cycle walking folds the wider permutation
//! back onto `[0, n)`.

pub mod domain;
pub mod engine;
pub mod hashing;
pub mod walk;

pub use crate::walk::invert_permute;
pub use crate::walk::permute;
pub use crate::engine::decode;
pub use crate::engine::encode;
pub use crate::engine::FEISTEL_ROUNDS;
pub use crate::domain::precompute;
pub use crate::domain::FeistelPrecomputed;
pub use crate::domain::Index;
