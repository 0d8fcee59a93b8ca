//! Republishing of a workspace's internal packages under a common prefix:
//! which packages to publish and in what order, the version they all get,
//! how each manifest is rewritten, and the small text patch applied to a
//! package's entry point.

pub mod version;
pub mod document;
pub mod manifest;
pub mod patcher;
pub mod graph;
pub mod resolver;
pub mod registry;
