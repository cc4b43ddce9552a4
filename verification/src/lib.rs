#![allow(non_snake_case)]
//! A fixed-capacity arena of tree nodes for a procedurally growing branching
//! structure, with verified allocation, topology edits, stochastic growth and
//! geometry extraction. Scalar quantities (lengths, positions, rotations) are
//! held in signed fixed-point with a million units to one.

pub mod archetype;
pub mod fixed;
pub mod node;
pub mod rng;
pub mod utils;
pub mod vertex;
