//! View-model engine of a file-tree sidebar: expansion state, the flattened
//! projection of visible entries, selection navigation, in-place editing and a
//! clipboard with collision-free paste naming.

pub mod commands;
pub mod details;
pub mod editing;
pub mod entry;
pub mod expanded;
pub mod expansion;
pub mod naming;
pub mod navigation;
pub mod panel;
pub mod projection;
pub mod sort_key;
pub mod worktree;
