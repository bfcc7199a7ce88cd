//! A quadtree-based spatial subdivision index over a bounded square region,
//! with a refinement driver that regrows the tree around a moving reference
//! point and caches the leaf that currently contains it.

pub mod quadtree;
pub mod player;
