//! A directory-listing library: entries are filtered by a chain of
//! predicates, stably sorted by one key and rendered as text lines.
//! Reading the filesystem and printing stay with the caller, which hands
//! the library plain values.

pub mod args_parser;
pub mod display;
pub mod entry;
pub mod filters;
pub mod sort;
pub mod walker;
