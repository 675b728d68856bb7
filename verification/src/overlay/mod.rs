//! The overlay: actions build up a tree of directory entries over the base
//! filesystem, segment by segment between numbered markers.
pub mod audit;
pub mod commit;
pub mod dentry;
pub mod dstate;
pub mod encoding;
pub mod journal;
pub mod laws;
pub mod listing;
pub mod markers;
pub mod naming;
pub mod path;
pub mod queries;
pub mod reading;
pub mod report;
pub mod restore;
pub mod shown;
pub mod tree;
pub mod types;
pub mod view;
pub mod wire;
