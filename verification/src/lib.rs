//! Verified core of the Qualetize GUI: target formats, level lists, the
//! tilepalquant random order, indexed image operations, tile reduction
//! helpers, the results list and the indexed image encoders.

pub mod engine;
pub mod export;
pub mod forest;
pub mod formats;
pub mod history;
pub mod indexed;
pub mod levels;
pub mod palette_output;
pub mod requests;
pub mod results;
pub mod rng;
pub mod run_context;
pub mod settings;
pub mod settings_history;
pub mod source_tiles;
pub mod text;
pub mod tile_reduce;
pub mod thumbnail;
pub mod tiles;
pub mod time;
pub mod worker;
