//! Crosshair overlay core: colour handling, pixel painting and the
//! per-display surface bookkeeping, all verified.

pub mod canvas;
pub mod cli;
pub mod color;
pub mod config;
pub mod crosshair;
pub mod display;
pub mod frame;
pub mod manager;
pub mod text;
