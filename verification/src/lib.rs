//! Line-oriented literal substring search.
//!
//! The library splits text into lines, keeps the lines that contain a query
//! string (optionally after Unicode case folding of both sides), and resolves
//! a search configuration from raw command-line arguments.

use vstd::prelude::*;

pub mod config;
pub mod engine;
pub mod fold;
pub mod text;

pub use config::resolve_config;
pub use config::Config;
pub use config::UsageError;
pub use engine::search;
pub use engine::whole_file_output;

pub use text::contains_chars;
pub use text::split_chunks;
pub use text::split_lines;

verus! {

} // verus!
