//! A reactive signal-graph kernel: mutable signal cells, derived
//! computations with dynamic dependency tracking, side-effecting
//! subscribers (effects), and a scheduler that coalesces updates,
//! batches writes, and detects cyclic update loops.

pub mod expr;
pub mod laws;
pub mod runtime;