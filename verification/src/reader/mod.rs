//! Event-driven XML processing with modal streaming/capture handling.

/// Memory-limited subtree capture buffer and arena materialization.
pub mod capture;
/// Tokenizer events in plain values, read through `quick-xml`.
pub mod events;
/// Per-element context stack frames and object pools for allocation reuse.
pub mod context;
/// The validation engine and the in-memory entry point.
pub mod parser;
/// Per-parent counters that give same-tag siblings their indices.
pub mod siblings;
