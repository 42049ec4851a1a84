//! Two-dimensional gravitational N-body simulation on an integer lattice,
//! with a Barnes–Hut quadtree to approximate distant clusters.
pub mod arith;
pub mod rectangle;
pub mod particle;
pub mod quadtree;
pub mod simulation;
