//! Previews a version-controlled repository the way a hosting service would
//! present it: a sorted tree of the tracked files, summary counts, and an
//! optional readme section.
pub mod order;
pub mod paths;
pub mod render;
pub mod report;
pub mod tree;
