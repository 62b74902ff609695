//! A "jump label" engine for a file browser: given a live search query over a
//! list of entries, it narrows the entry set to the matching entries and binds
//! each survivor a single-character label the user can press to select it.
//!
//! The crate has three parts:
//! - the entry matcher: substring filtering of entries by the query;
//! - the label allocator: binds labels from a fixed alphabet to the matching
//!   entry ids, keeping the label of every id that matched before;
//! - the jump session: the state machine that owns the query and the current
//!   label map, and decides when the interaction ends.

pub mod actions;
pub mod allocator;
pub mod jump_map;
pub mod keys;
pub mod matcher;
pub mod session;
