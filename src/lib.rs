//! A chip-firing (abelian sandpile) engine on a fixed rectangular grid.
//!
//! A grid holds a count of grains per cell. A cell with four grains or more is unstable and
//! topples: it sends grains to its four orthogonal neighbours. The rules differ in how a
//! grid is walked (a row-major sweep, or recursive relaxation from a cell) and in what lies
//! past its edge (an outer ring that collects or absorbs grains, or wrap-around).
//!
//! `model` states what a grid is and what one sweep does; `relax` states what a relaxation
//! is and proves that its stable outcome does not depend on the order of firings;
//! `termination` proves that repeated sweeps of a bounded grid settle; `ring` that bounded
//! rules only feed the outer ring and never raise the interior's total; `sandpile` is the grid
//! itself, whose storage is a `toodee::TooDee` seen through `cells` and whose random draws
//! come through `chance`; `transport` decides when to step.

pub mod cells;
pub mod chance;
pub mod model;
pub mod relax;
pub mod ring;
pub mod sandpile;
pub mod stereo;
pub mod termination;
pub mod transport;

pub use sandpile::{GridError, Sandpile, ToppleMode, ToppleStats, CALLS_PER_CELL, PROBABILITY_MIN, PROBABILITY_SCALE};
pub use stereo::Stereo;
pub use transport::TransportSync;
