//! Umbra: the deterministic, fixed-point simulation core of a 2D isometric
//! RTS engine.

pub mod app;
pub mod fixed;
pub mod gfx;
pub mod input;
pub mod path;
pub mod select;
pub mod sim;
