//! Descriptor tree: declarative schema of expected XML structure with per-node access modes and rules.

/// Fluent builder API for constructing a descriptor tree.
pub mod builder;
/// Core descriptor types: nodes, tree and access needs.
pub mod descriptor;
/// Path types: path segments, node ids, path formatting.
pub mod path;
