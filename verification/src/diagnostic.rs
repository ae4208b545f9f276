use vstd::prelude::*;

use crate::tree::path::PathSegment;

verus! {

/// How serious a reported finding is.
#[derive(Debug, Clone, Copy, PartialEq, Eq)]
pub enum Severity {
    Error,
    Warning,
    Info,
}

/// One finding reported by a rule about one element.
#[derive(Debug, Clone)]
pub struct Diagnostic {
    pub rule_name: String,
    pub message: String,
    pub element_path: Vec<PathSegment>,
    pub element_index: u32,
    pub severity: Severity,
}

} // verus!
