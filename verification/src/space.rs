//! Container geometries the march runs in.
use vstd::prelude::*;

verus! {

/// The unit RGB cube [0,1]³, the container the grid discretises.
#[derive(Clone, Copy, Debug)]
pub struct CubeSpace;

} // verus!
