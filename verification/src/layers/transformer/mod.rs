//! The layers of transformers.
pub mod mha;
