//! A compressive quadtree: a square grid of cells held at several levels of
//! detail, where any subtree may be reduced to a single embedding and
//! rebuilt one level at a time on demand.

pub mod ctx;
pub mod quad;
pub mod proofs;
