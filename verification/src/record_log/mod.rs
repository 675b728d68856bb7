//! The record log: a journal of additions, modifications, deletions and
//! redirects with checkpoints and restores in between. Records are parsed,
//! those that restores made unreachable are dropped, and what is left is
//! resolved into one list of changes.
pub mod carry;
pub mod checkpoints;
pub mod commit;
pub mod effect;
pub mod parse;
pub mod reach;
pub mod report;
pub mod resolve;
pub mod restore;
pub mod slices;
pub mod staging;
pub mod timeline;
pub mod types;
pub mod written;
