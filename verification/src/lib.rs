//! A tiny byte-level language-model toolkit: a byte tokenizer, a bigram
//! model that "trains" by counting byte pairs, greedy autoregressive
//! generation, and the causal mask used by attention.

pub mod tokenizer;
pub mod model;
pub mod sampling;
pub mod attention;
