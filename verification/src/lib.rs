//! The population-circle search: the integer skeleton of every step, verified.

pub mod bracket;
pub mod cli;
pub mod grid;
pub mod kernel;
pub mod progress;
pub mod raster;
pub mod report;
pub mod search;
pub mod smallest;
pub mod table;
pub mod text;
