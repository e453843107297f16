//! Verified batch "similar items" computation over sparse fixed-point vectors.
//!
//! The crate models weighted feature vectors with integer weights in
//! micro-units (`SCALE` stands for 1.0), computes pairwise cosine scores by a
//! sorted merge-join, keeps the best K candidates per reference vector, and
//! fans the per-reference scans out over a worker pool.
#![verifier::loop_isolation(false)]

use vstd::prelude::*;

pub mod math;
pub mod scan;
pub mod topk;
pub mod vecs;

verus! {

/// One unit (1.0) in the fixed-point weight encoding: weights are micro-units.
pub const SCALE: i64 = 1_000_000;

/// Largest admissible weight magnitude; keeps every merge-join accumulation
/// well inside `i128` whatever the vector lengths are.
pub const WEIGHT_BOUND: i64 = 0x4000_0000;

} // verus!
