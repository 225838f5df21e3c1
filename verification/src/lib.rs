//! Conway's Game of Life rule engine on a fixed-size rectangular grid.
//!
//! The crate is built bottom-up from two pieces: a dense per-tick
//! neighbor-count grid ([`cell_matrix::CellMatrix`]) rebuilt each firing tick
//! from the sparse live-cell population, and a timer-gated rule engine
//! ([`engine::GolCore`]) that turns that grid's enumerations into death
//! notifications and birth requests.

use vstd::prelude::*;

pub mod cell_matrix;
pub mod engine;

verus! {

/// A grid coordinate. Plain value type; validity against a particular grid's
/// bounds is enforced by [`cell_matrix::CellMatrix`] construction, not here.
#[derive(Clone, Copy, PartialEq, Eq, Structural, Hash, Debug)]
pub struct Position {
    pub x: i32,
    pub y: i32,
}

impl Default for Position {
    fn default() -> (r: Self)
        ensures
            r.x == 0 && r.y == 0,
    {
        Position { x: 0, y: 0 }
    }
}

/// An opaque handle naming one living cell. The engine never interprets it
/// beyond identity comparison; the surrounding population store assigns them.
#[derive(Clone, Copy, PartialEq, Eq, Structural, Hash, Debug)]
pub struct CellId {
    pub id: u64,
}

/// Grid configuration: the only externally tunable parameters of the core
/// besides the tick period.
pub struct GolConfig {
    pub width: u32,
    pub height: u32,
}

impl GolConfig {
    /// Dimensions a grid can actually be built with: positive, and small
    /// enough that every linear index `x + width * y` fits in an `i32`.
    pub open spec fn wf(self) -> bool {
        1 <= self.width && 1 <= self.height && self.width * self.height <= i32::MAX
    }
}

impl Default for GolConfig {
    fn default() -> (r: Self)
        ensures
            r.width == 20 && r.height == 20,
            r.wf(),
    {
        GolConfig { width: 20, height: 20 }
    }
}

} // verus!
