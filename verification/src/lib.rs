//! Consolidates scattered documentation directories.
//!
//! The library scans a directory tree (handed to it as plain data) for
//! subdirectories whose name equals a configurable target name
//! (case-insensitive), pruning dependency, build, version-control, hidden and
//! private directories along the way, and computes for every match the
//! destination directory it should be copied to: the match's relative path
//! with the final target-name segment dropped, joined onto a destination
//! root, with any remaining embedded target-name segment collapsed away.
//!
//! All path computation here is pure; reading the tree from disk and copying
//! files are left to the caller.

pub mod laws;
pub mod paths;
pub mod scan;
pub mod text;

pub use paths::destination_for;
pub use paths::join_path;
pub use paths::normalize_path;
pub use paths::parent_of;
pub use scan::collect_matches;
pub use scan::is_docs_dir;
pub use scan::plan_copies;
pub use scan::should_traverse;
pub use scan::CopyStep;
pub use scan::FsNode;
pub use scan::ScanConfig;
pub use text::contains_substring;
pub use text::eq_ignore_case;
pub use text::replace_all;
