//! Integer core of a Wilsonian renormalization-group toolkit on periodic
//! square lattices: block-spin coarse-graining plans, nearest-neighbour bond
//! and correlation pair plans, RG flow dimensions, the xorshift generator
//! that fills lattices, and the learning-rate fit window.
use vstd::prelude::*;

mod arith;
pub mod coarse;
pub mod flow;
pub mod geometry;
pub mod random;
pub mod schedule;

pub use coarse::CoarseGrainingOperator;
