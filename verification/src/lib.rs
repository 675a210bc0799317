//! Reconciliation pipeline for extracted wallpaper packages.
//!
//! The library models a media directory as a value (a set of entries below a
//! root), and computes verified plans for the destructive operations that an
//! unverified shell then replays against the real filesystem: pruning files
//! whose extension is not allow-listed, evicting stray files from a root,
//! flattening nested media files into the root with collision resolution,
//! and importing a wallpaper into an external editor's project store.

pub mod cleanup;
pub mod decimal;
pub mod errors;
pub mod evict;
pub mod extensions;
pub mod flatten;
pub mod fsmodel;
pub mod import;
pub mod jsonmeta;
pub mod repkg;
pub mod sanitize;
pub mod steam;

pub use sanitize::sanitize_title;
