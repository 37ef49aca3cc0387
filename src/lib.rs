//! Type inference for a small lambda-calculus tree: an interning table for compound types,
//! a monotone knowledge base of expression facts, per-node resolution rules and a
//! propagation engine that drives them to a fixed point.
pub mod ids;
pub mod expr;
pub mod knowledge;
pub mod model;
pub mod infer;
