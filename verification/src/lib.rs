//! A scalar reverse-mode automatic-differentiation engine.
//!
//! Callers build an arithmetic expression graph out of scalar values,
//! evaluate it eagerly, and then compute the partial derivative of the
//! graph's root with respect to every node that contributed to it.
//!
//! Scalars are machine doubles, carried everywhere as their raw bit
//! pattern (`u64`); the arithmetic itself is delegated to outside
//! floating-point libraries behind trusted wrappers in [`scalar`].

pub mod backward;
pub mod graph;
pub mod laws;
pub mod scalar;
