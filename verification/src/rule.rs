use vstd::prelude::*;

use crate::diagnostic::Diagnostic;
use crate::reader::context::NodeContext;
use crate::tree::descriptor::NodeNeeds;
use crate::tree::path::{segments_view, PathSegment};
use crate::view::{attr_value, opt_node_view, opt_str_view, ChildSummary, SubtreeNode};

verus! {

/// The ancestor `level` steps above an element whose ancestors, outermost
/// first, are `anc` (level 0 is the parent).
pub open spec fn ancestor_at(anc: Seq<NodeContext>, level: int) -> NodeContext {
    anc[anc.len() - 1 - level]
}

/// Unified read-only interface for accessing an XML element during rule evaluation.
///
/// Implemented by the streaming and the subtree views, so rules can be written
/// independently of the access mode. Each accessor is stated over the
/// element's model: tag, attributes, text, sibling index, declared path,
/// completed children, captured subtree, and the contexts of its tracked
/// ancestors (outermost first).
pub trait NodeAccess {
    spec fn spec_tag(&self) -> Seq<char>;

    spec fn spec_attrs(&self) -> Seq<(String, String)>;

    spec fn spec_text(&self) -> Seq<char>;

    spec fn spec_element_index(&self) -> nat;

    spec fn spec_path(&self) -> Seq<Seq<char>>;

    spec fn spec_children(&self) -> Seq<ChildSummary>;

    spec fn spec_subtree(&self) -> Option<SubtreeNode>;

    spec fn spec_ancestors(&self) -> Seq<NodeContext>;

    /// XML tag name of this element.
    fn tag(&self) -> (r: &str)
        ensures
            r@ == self.spec_tag(),
    ;

    /// Looks up a single attribute by name (the first one with that name).
    fn attr(&self, name: &str) -> (r: Option<&str>)
        ensures
            opt_str_view(r) == attr_value(self.spec_attrs(), name@),
    ;

    /// All attributes of this element, in document order (the way to visit
    /// each of them).
    fn attributes(&self) -> (r: &[(String, String)])
        ensures
            r@ == self.spec_attrs(),
    ;

    /// Direct text content of this element (not recursive).
    fn text(&self) -> (r: &str)
        ensures
            r@ == self.spec_text(),
    ;

    /// Zero-based sibling index among elements with the same tag under the same parent.
    fn element_index(&self) -> (r: usize)
        ensures
            r == self.spec_element_index(),
    ;

    /// Full declared path from root to this element.
    fn path(&self) -> (r: &[PathSegment])
        ensures
            segments_view(r@) == self.spec_path(),
    ;

    /// Summaries of completed child elements in document order.
    fn children_summaries(&self) -> (r: &[ChildSummary])
        ensures
            r@ == self.spec_children(),
    ;

    /// Returns the captured subtree root, or `None` if this is a streaming-mode view.
    fn subtree(&self) -> (r: Option<&SubtreeNode>)
        ensures
            opt_node_view(r) == self.spec_subtree(),
    ;

    /// Depth of this element among tracked elements (0 = root).
    fn depth(&self) -> (r: usize)
        ensures
            r == self.spec_ancestors().len(),
    ;

    /// Looks up an attribute on an ancestor. `level` 0 = parent, 1 = grandparent, etc.
    fn ancestor_attr(&self, level: usize, name: &str) -> (r: Option<&str>)
        ensures
            opt_str_view(r) == (if level < self.spec_ancestors().len() {
                attr_value(ancestor_at(self.spec_ancestors(), level as int).attrs@, name@)
            } else {
                None
            }),
    ;

    /// Returns the text content of an ancestor. `level` 0 = parent, 1 = grandparent, etc.
    fn ancestor_text(&self, level: usize) -> (r: Option<&str>)
        ensures
            opt_str_view(r) == (if level < self.spec_ancestors().len() {
                Some(ancestor_at(self.spec_ancestors(), level as int).text@)
            } else {
                None
            }),
    ;

    /// Returns children summaries of an ancestor. `level` 0 = parent, 1 = grandparent, etc.
    fn ancestor_children(&self, level: usize) -> (r: Option<&[ChildSummary]>)
        ensures
            r is Some <==> level < self.spec_ancestors().len(),
            r matches Some(c) ==> c@ == ancestor_at(self.spec_ancestors(), level as int).children@,
    ;
}

/// A synchronous, stateless validation rule evaluated at element close time.
///
/// Rules must be `Send + Sync` so documents can be processed in parallel.
/// The descriptor tree builder and the engine state what they do over the
/// values that `name`, `needs` and `evaluate` returned when called.
pub trait Rule: Send + Sync {
    /// Unique name identifying this rule (used in diagnostic output).
    fn name(&self) -> &str;

    /// Evaluates this rule against the given element, returning any diagnostics.
    fn evaluate(&self, node: &dyn NodeAccess) -> Vec<Diagnostic>;

    /// Declares what data this rule reads from the element. Defaults to all
    /// data (attributes, text and children); set the capture flag if the
    /// rule requires subtree capture.
    fn needs(&self) -> (r: NodeNeeds)
        default_ensures
            r == NodeNeeds(7),
    {
        NodeNeeds::all()
    }
}

/// A boxed rule is a rule, so one tree can hold rules of different types.
impl Rule for Box<dyn Rule> {
    fn name(&self) -> &str {
        (**self).name()
    }

    fn evaluate(&self, node: &dyn NodeAccess) -> Vec<Diagnostic> {
        (**self).evaluate(node)
    }

    fn needs(&self) -> (r: NodeNeeds) {
        (**self).needs()
    }
}

} // verus!
