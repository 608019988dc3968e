pub mod grid;
pub mod laws;
pub mod input;
pub mod model;
pub mod rng;

use vstd::prelude::*;

verus! {

/// Updates per second of the fixed-rate simulation loop.
pub const FPS: i32 = 30;
/// Grid width, in cells.
pub const FIELD_W: usize = 14;
/// Grid height, in cells.
pub const FIELD_H: usize = 14;
/// Side length of one rendered cell, in pixels.
pub const CELL_SIZE: i32 = 40;
/// Number of distinct cell colors; every cell index lies in `[0, COLOR_COUNT)`.
pub const COLOR_COUNT: i32 = 6;
/// Total move budget for one game.
pub const ALLOWED_STEP_COUNT: i32 = 25;
/// Frames to wait between two reveal-wave ticks.
pub const PAINT_WAIT: i32 = 1;

} // verus!
