pub mod commands;
pub mod commit;
pub mod config;
pub mod diff;
pub mod dtype;
pub mod entry_log;
pub mod error;
pub mod events;
pub mod fields;
pub mod ioctl;
pub mod kmod;
pub mod mcp;
pub mod mcp_schema;
pub mod mounts;
pub mod overlay;
pub mod pathmap;
pub mod record_log;
pub mod replay;
pub mod report;
pub mod sift;
pub mod snapshots;
pub mod text;
pub mod wording;
