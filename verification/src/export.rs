//! Records that accompany computed paths in an output file.
use vstd::prelude::*;

verus! {

/// Description of one experiment's output: its name, the metric it used
/// and the grid resolution it ran at.
#[derive(Debug)]
pub struct Metadata {
    pub name: String,
    pub metric: String,
    pub resolution: usize,
}

} // verus!
