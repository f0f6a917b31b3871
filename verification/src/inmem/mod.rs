//! The in-memory write path: the mutable table and its immutable form.

pub mod immutable;
pub mod mutable;
