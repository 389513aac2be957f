//! Training-free next-token prediction by compression distance.
//!
//! Byte sequences are compared by how well they compress together
//! (normalized compression distance), and the next token of a context is
//! taken from the targets of its nearest stored contexts.

pub mod error;
pub mod oracle;
pub mod pool;
pub mod metric;
pub mod neighbors;
pub mod sampler;
pub mod training;
pub mod generator;
pub mod vocabulary;
