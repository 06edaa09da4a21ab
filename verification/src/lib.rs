//! A reverse-mode automatic-differentiation engine over scalar values, with
//! a small feed-forward network built on top of it.
//!
//! Every scalar is carried as an opaque `u64` code whose arithmetic is
//! supplied by an implementation of [`scalar::ScalarOps`]; the engine itself
//! only builds the computation graph and routes gradients. Nodes live in an
//! arena, the [`graph::Dag`], and are named by [`graph::RefValue`] handles;
//! every operation appends a node that records its operands, so the graph is
//! acyclic by construction. The backward pass lays the reachable nodes out
//! in a depth-first post-order and walks that order in reverse, each node
//! accumulating its operation's local derivative into its operands.
//!
//! The [`laws`] module states and proves the properties the engine is built
//! around: the local derivative of each operation, accumulation at fan-out,
//! the exactness of the traversal order, and the gradient reset contract.

pub mod graph;
pub mod laws;
pub mod mlp;
pub mod ops;
pub mod scalar;
