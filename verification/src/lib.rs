//! Streaming XML validation: a declarative descriptor tree, an event-driven
//! validation engine with streaming and subtree-capture access modes, and the
//! views that rules read.

/// Validation output types: diagnostics and severity levels.
pub mod diagnostic;
/// Error types for the builder and the reader.
pub mod error;
/// Event-driven XML processing: context frames, subtree capture, the engine.
pub mod reader;
/// Rule and node-access traits for synchronous validation.
pub mod rule;
/// Descriptor tree: declarative schema of expected XML structure.
pub mod tree;
/// View types that rules receive: streaming context and captured subtrees.
pub mod view;
