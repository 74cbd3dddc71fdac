//! Laws: what holds of every walk, of every change of a tree, and of every session.
pub mod again;
pub mod changes;
pub mod components;
pub mod depth;
pub mod existence;
pub mod files;
pub mod frame;
pub mod init;
pub mod kept;
pub mod likeness;
pub mod meanings;
pub mod metadata;
pub mod names;
pub mod notes;
pub mod order;
pub mod origins;
pub mod outcomes;
pub mod paths;
pub mod points;
pub mod quiet;
pub mod renaming;
pub mod session;
pub mod tables;
pub mod targets;
pub mod texts;
pub mod turns;
pub mod unique;
mod ways;
