use vstd::prelude::*;

use crate::tree::path::NodeId;
use crate::view::ChildSummary;

verus! {

/// Per-element stack frame holding runtime state during streaming processing.
///
/// One `NodeContext` is pushed when a tracked element opens and popped at close.
/// Accumulates attrs, text, and child summaries for rule evaluation.
pub struct NodeContext {
    /// Attributes of this element.
    pub attrs: Vec<(String, String)>,
    /// Accumulated direct text content.
    pub text: String,
    /// Completed child summaries in document order.
    pub children: Vec<ChildSummary>,
    /// Descriptor node ID linking this context to its declaration.
    pub descriptor_id: NodeId,
    /// Zero-based sibling index among same-tag siblings.
    pub index: u32,
}

/// Object pool for [`NodeContext`] instances to reduce heap allocations.
pub struct ContextPool {
    free: Vec<NodeContext>,
}

impl ContextPool {
    /// The contexts held for reuse, the next one to hand out last.
    pub closed spec fn free(&self) -> Seq<NodeContext> {
        self.free@
    }

    /// The number of contexts held for reuse.
    pub open spec fn free_count(&self) -> nat {
        self.free().len()
    }

    /// Every context the pool holds is empty: no attributes, text or children.
    pub open spec fn holds_only_empty(&self) -> bool {
        forall|k: int|
            0 <= k < self.free().len() ==> {
                &&& (#[trigger] self.free()[k]).attrs@.len() == 0
                &&& self.free()[k].text@.len() == 0
                &&& self.free()[k].children@.len() == 0
            }
    }

    /// Creates an empty pool.
    pub fn new() -> (r: ContextPool)
        ensures
            r.free_count() == 0,
            r.holds_only_empty(),
    {
        ContextPool { free: Vec::new() }
    }

    /// Returns a recycled or new `NodeContext` initialized with the given values:
    /// whatever the pool held, the context carries the given id, attributes and
    /// index, no text and no children.
    pub fn acquire(&mut self, descriptor_id: NodeId, attrs: Vec<(String, String)>, index: u32) -> (r:
        NodeContext)
        ensures
            r.descriptor_id == descriptor_id,
            r.attrs == attrs,
            r.index == index,
            r.text@ == Seq::<char>::empty(),
            r.children@ == Seq::<ChildSummary>::empty(),
            final(self).free() == if old(self).free_count() > 0 {
                old(self).free().drop_last()
            } else {
                old(self).free()
            },
            old(self).holds_only_empty() ==> final(self).holds_only_empty(),
    {
        if let Some(mut ctx) = self.free.pop() {
            ctx.descriptor_id = descriptor_id;
            ctx.attrs = attrs;
            ctx.text = String::new();
            ctx.children.clear();
            ctx.index = index;
            ctx
        } else {
            NodeContext { descriptor_id, attrs, text: String::new(), children: Vec::new(), index }
        }
    }

    /// Returns a `NodeContext` to the pool for reuse, emptied of its
    /// attributes, text and children.
    pub fn release(&mut self, ctx: NodeContext)
        ensures
            final(self).free().len() == old(self).free().len() + 1,
            final(self).free().drop_last() == old(self).free(),
            final(self).free().last().attrs@.len() == 0,
            final(self).free().last().text@.len() == 0,
            final(self).free().last().children@.len() == 0,
            final(self).free().last().descriptor_id == ctx.descriptor_id,
            final(self).free().last().index == ctx.index,
            old(self).holds_only_empty() ==> final(self).holds_only_empty(),
    {
        let mut ctx = ctx;
        ctx.attrs.clear();
        ctx.text = String::new();
        ctx.children.clear();
        self.free.push(ctx);
    }
}

/// Object pool for attribute vectors to reduce heap allocations.
pub struct AttrPool {
    free: Vec<Vec<(String, String)>>,
}

impl AttrPool {
    /// The vectors held for reuse.
    pub closed spec fn held(&self) -> Seq<Vec<(String, String)>> {
        self.free@
    }

    /// Creates an empty pool.
    pub fn new() -> (r: AttrPool)
        ensures
            r.held().len() == 0,
    {
        AttrPool { free: Vec::new() }
    }

    /// Returns the most recently held vector, or a new empty one.
    pub fn acquire(&mut self) -> (r: Vec<(String, String)>)
        ensures
            old(self).held().len() == 0 ==> r@ == Seq::<(String, String)>::empty(),
            old(self).held().len() == 0 ==> final(self).held().len() == 0,
            old(self).held().len() > 0 ==> r == old(self).held().last(),
            old(self).held().len() > 0 ==> final(self).held() == old(self).held().drop_last(),
    {
        match self.free.pop() {
            Some(v) => v,
            None => Vec::new(),
        }
    }
}

} // verus!
