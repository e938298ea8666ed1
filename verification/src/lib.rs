//! A verified almanac engine: pipelines of interval-translation tables,
//! composed and intersected, together with the small line-based puzzle
//! reductions that accompany it (calibration lines, cube games, schematic
//! grids and scratch cards).

pub mod almanac;
pub mod calibration;
pub mod cards;
pub mod cubes;
pub mod errors;
pub mod parse;
pub mod pipeline;
pub mod range;
pub mod rules;
pub mod schematic;
pub mod translation;
