//! Layers of a small transformer: the shape and index logic of token and position
//! embeddings, rotary position embeddings, causal masking and gradient routing.

pub mod matrix;
pub mod fold;
pub mod embed;
pub mod rotary;
pub mod attention;
