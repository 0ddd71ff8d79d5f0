//! An in-memory manager for person profile records.
//!
//! Records carry a numeric id, a name, a validated date of birth, an address
//! and a free-text note. They are parsed from comma-separated lines, kept in
//! an insertion-ordered store, and can be printed, searched, sorted and
//! rendered back to comma-separated lines. Every operation on the store is
//! specified and verified; reading lines from a console or a file is left to
//! the surrounding program.

pub mod command;
pub mod date;
pub mod errors;
pub mod profile;
pub mod session;
pub mod sort;
pub mod text;
