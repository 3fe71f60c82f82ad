//! Builds the outline of a tree of markdown documents: which entries it holds,
//! in which order, and the text of the outline document.
//!
//! The caller reads the source tree into a `DirNode`, hands it with an
//! `AutoGenConfig` to `gen_summary`, creates the stub index documents that
//! the result names, and writes the outline where `needs_write` says so.
pub mod config;
pub mod fingerprint;
pub mod render;
pub mod sort;
pub mod summary;
pub mod text;
pub mod tree;

pub use config::{
    AutoGenConfig, ConfigError, ConfigTable, ConfigValue, DirectoryWithoutIndexBehavior,
};
pub use fingerprint::{md5, needs_write};
pub use render::{generate_summary_line, render_summary, RelativizedLink, SUMMARY_FILE};
pub use sort::sort_entry_recursive;
pub use summary::{gen_summary, AutoGenSummary, Generation, PREPROCESSOR_NAME};
pub use text::get_title;
pub use tree::{walk_dir, wants_content, DirNode, FileNode, MdEntry};
