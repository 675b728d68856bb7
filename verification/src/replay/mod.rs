//! Replaying a journal: records are cut into segments at checkpoints and
//! restores, dead segments are dropped, and what is left is reduced to an
//! ordered list of actions or to one change per path.
pub mod action;
pub mod chains;
pub mod compact;
pub mod effect;
pub mod journal;
pub mod liveness;
pub mod markers;
pub mod net;
pub mod passes;
pub mod prefix;
pub mod queries;
pub mod segment;
pub mod simplify;
pub mod timeline;
pub mod types;
