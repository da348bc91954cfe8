//! Comparison of two snapshots of a kernel-style configuration file.
//!
//! The library parses the lines of both snapshots into one history per
//! parameter, classifies each history and renders the changes in one of
//! several formats. Every function here is verified against its contract.

pub mod analysis;
pub mod history;
pub mod parameters;
pub mod reporter;
pub mod text;
