//! A coverage-cleaning robot simulated in a room laid out as a grid of cells:
//! the room model with its coverage metric, the robot's battery and motion
//! model, A* routes between cells, and the tick loop that drives the robot's
//! operating state.
use vstd::prelude::*;

pub mod grid;
pub mod environment;
pub mod pathfinding;
pub mod types;
pub mod robot;
pub mod simulator;

pub use robot::{CleaningMode, Robot, RobotState};
pub use environment::{CellType, Coverage, Environment};
pub use simulator::Simulator;
pub use types::Position;

verus! {

/// Library version.
pub const VERSION: &'static str = "0.1.0";

} // verus!
