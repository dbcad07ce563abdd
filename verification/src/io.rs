//! Argument handling and output rendering around the engine.

pub mod input;
pub mod output;
