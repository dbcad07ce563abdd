pub mod config;
pub mod eval;
pub mod io;
pub mod source;
pub mod text;
