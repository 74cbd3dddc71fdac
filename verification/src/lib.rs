//! Sessions that turn an in-memory file system into a tree of Roblox instances.
pub mod branch;
pub mod caution;
pub mod failure;
pub mod file_type;
pub mod filter_plugin;
pub mod imfs;
pub mod laws;
pub mod localization;
pub mod met;
pub mod model;
pub mod pairing;
pub mod path;
pub mod path_map;
pub mod path_table;
pub mod project;
pub mod rbx_snapshot;
pub mod reconcile;
pub mod reify;
pub mod session;
pub mod snapshots;
pub mod sync_point;
pub mod text;
pub mod tree;
pub mod value;
pub mod walk;

