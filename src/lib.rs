//! Per-process memory composition: a process tree built from a snapshot of
//! the process table, a selection over it, and the classification of each
//! selected process's mapping table into memory categories.

pub mod classify;
pub mod enumerate;
pub mod filter;
pub mod listing;
pub mod select;
pub mod tree;
