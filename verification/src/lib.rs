//! A scalar reverse-mode automatic-differentiation engine.
//!
//! Every arithmetic operation on scalar values is recorded into an arena of
//! nodes addressed by integer indices; `backward` then computes the partial
//! derivative of a chosen root with respect to every node reachable from it
//! in a single reverse traversal of a depth-first post-order.
//!
//! Scalar values are IEEE 754 binary64 numbers carried as `u64` bit patterns;
//! the arithmetic itself is performed by outside crates behind the trusted
//! wrappers in [`scalar`], and everything the engine does with the results is
//! verified.

pub mod engine;
pub mod graph;
pub mod laws;
pub mod order;
pub mod scalar;

pub use graph::Graph;
pub use graph::Operator;
pub use graph::Value;
