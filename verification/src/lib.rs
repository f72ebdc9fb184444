//! Rules of a small turn-based tactics game on a square grid: positions,
//! line of sight, unit ranges, damage, enemy movement and turn flow.

pub mod grid;
pub mod units;
pub mod game;
pub mod tile_overlays;
pub mod interaction;
pub mod ui;
