//! Core engine of a keyboard-driven desktop launcher: query routing by
//! prefix sigil, fuzzy ranking of candidates, bounded file-search planning,
//! a fixed table of system commands, grid-aware selection state with
//! wraparound, and the launch decision for the selected entry.
//!
//! Everything here is verified; the host front end (windowing, disk and
//! process access) lives outside and exchanges plain values with this crate.

pub mod app_search;
pub mod config;
pub mod file_search;
pub mod launch;
pub mod matcher;
pub mod navigation;
pub mod rank;
pub mod router;
pub mod search_mode;
pub mod system_commands;
pub mod text;

pub use search_mode::SearchMode;
pub use search_mode::SearchResult;
