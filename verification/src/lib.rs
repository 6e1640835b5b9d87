//! Discrete core of a Fast Marching Method solver for geodesics through the
//! unit cube: grid indexing, the priority queue of tentative arrival costs,
//! and the Far / Considered / Accepted scheduling of cells.
pub mod grid;
pub mod heap;
pub mod solver;
pub mod march;
pub mod keys;
pub mod space;
pub mod metric;
pub mod export;
