//! Friction fields that price movement through the container.
use vstd::prelude::*;

verus! {

/// Uniform cost everywhere: the cost of a move is its length, so geodesics
/// are straight lines.
#[derive(Clone, Copy, Debug)]
pub struct EuclideanMetric;

} // verus!
