//! Everything that is meant to be tuned lives here, never inline.
//!
//! Durations are whole milliseconds and strengths, probabilities and
//! confidences are parts per million, so that every rule below can be stated
//! and checked exactly.

use vstd::prelude::*;

verus! {

/// Board width in cells.
pub const GRID_WIDTH: i32 = 64;
/// Board height in cells.
pub const GRID_HEIGHT: i32 = 32;
/// Edge length of the nest, a square in the centre of the board.
pub const NEST_SIZE: i32 = 6;
/// How many fruits the open field is kept topped up to.
pub const FRUIT_TARGET: usize = 24;
/// Milliseconds between two fruits growing back.
pub const FRUIT_REGROWTH_MS: u64 = 4000;
/// How many ants the colony starts with.
pub const ANT_COUNT: usize = 20;
/// Upper bound between two decisions for one ant, in milliseconds.
pub const THINK_INTERVAL_MS: u64 = 2000;
/// How far an ant walks on one "head that way" decision.
pub const WANDER_CELLS: i32 = 12;
/// Milliseconds an ant takes to walk from one cell to the next.
pub const STEP_DURATION_MS: u64 = 250;
/// How long a plank carrier may make no headway before giving up, in ticks.
pub const PLANK_GIVE_UP_TICKS: u32 = 300;
/// How far off a plank is noticed, in cells.
pub const PLANK_VISIBLE_FROM: i32 = 8;
/// How far an ant can see, in cells, in every direction.
pub const VISION_RADIUS: i32 = 3;
/// Upper bound on requests in the air at once.
pub const MAX_IN_FLIGHT: usize = 24;
/// Below this confidence (parts per million) an answer is dropped.
pub const MIN_CONFIDENCE_PPM: u32 = 220_000;
/// How many past orders the input bar keeps.
pub const REMEMBERED_ORDERS: usize = 5;
/// How many thrown-away answers the log keeps.
pub const REMEMBERED_DISCARDS: usize = 6;
/// How much scent a fresh carrier leaves on a cell, in parts per million.
pub const SCENT_DEPOSIT_PPM: u32 = 1_000_000;
/// What is left of a deposit with every further step, as a percentage.
pub const SCENT_STEP_DECAY_PERCENT: u32 = 88;
/// Milliseconds for a trail to fade to half.
pub const SCENT_HALF_LIFE_MS: u64 = 25_000;
/// Below this (parts per million) a cell counts as unscented.
pub const SCENT_THRESHOLD_PPM: u32 = 50_000;
/// One whole, in parts per million.
pub const PPM: u32 = 1_000_000;

} // verus!
