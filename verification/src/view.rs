use vstd::prelude::*;

use crate::reader::context::NodeContext;
use crate::rule::NodeAccess;
use crate::tree::descriptor::DescriptorTree;
use crate::tree::path::{segments_view, str_eq, NodeId, PathSegment};

verus! {

/// Value of the first attribute of `attrs` named `name`.
pub open spec fn attr_value(attrs: Seq<(String, String)>, name: Seq<char>) -> Option<Seq<char>>
    decreases attrs.len(),
{
    if attrs.len() == 0 {
        None
    } else if attrs[0].0@ == name {
        Some(attrs[0].1@)
    } else {
        attr_value(attrs.drop_first(), name)
    }
}

/// The characters of an optional string slice.
pub open spec fn opt_str_view(o: Option<&str>) -> Option<Seq<char>> {
    match o {
        Some(s) => Some(s@),
        None => None,
    }
}

/// The node behind an optional reference.
pub open spec fn opt_node_view(o: Option<&SubtreeNode>) -> Option<SubtreeNode> {
    match o {
        Some(n) => Some(*n),
        None => None,
    }
}

/// Finds the value of the first attribute named `name`.
pub fn find_attr<'a>(attrs: &'a [(String, String)], name: &str) -> (r: Option<&'a str>)
    ensures
        opt_str_view(r) == attr_value(attrs@, name@),
{
    let mut i: usize = 0;
    assert(attrs@.skip(0) =~= attrs@);
    while i < attrs.len()
        invariant
            i <= attrs@.len(),
            attr_value(attrs@, name@) == attr_value(attrs@.skip(i as int), name@),
        decreases attrs.len() - i,
    {
        proof {
            assert(attrs@.skip(i as int)[0] == attrs@[i as int]);
            assert(attrs@.skip(i as int).drop_first() =~= attrs@.skip(i + 1));
        }
        if str_eq(attrs[i].0.as_str(), name) {
            return Some(attrs[i].1.as_str());
        }
        i = i + 1;
    }
    proof {
        assert(attrs@.skip(i as int).len() == 0);
    }
    None
}

/// Whether bit `i` of `bits` is set.
pub open spec fn bit_set(bits: u64, i: u64) -> bool {
    (bits >> i) & 1u64 == 1u64
}

/// The mask of the lowest `c` bits (all bits for `c >= 64`).
pub open spec fn low_mask(c: u64) -> u64 {
    if c >= 64 {
        0xffff_ffff_ffff_ffffu64
    } else {
        ((1u64 << c) - 1u64) as u64
    }
}

/// Pass/fail outcome of up to 64 rules, one bit per rule.
#[derive(Debug, Clone, Copy)]
pub struct RuleResults(pub u64);

/// Setting bit `i` changes bit `i` only.
pub proof fn lemma_set_bit(bits: u64, i: u64, j: u64)
    requires
        i < 64,
        j < 64,
    ensures
        bit_set(bits | (1u64 << i), j) == (i == j || bit_set(bits, j)),
{
    assert(i < 64 && j < 64 ==> (((bits | (1u64 << i)) >> j) & 1u64 == 1u64) == (i == j || (bits
        >> j) & 1u64 == 1u64)) by (bit_vector);
}

proof fn lemma_mask_step(bits: u64, c: u64)
    requires
        c < 64,
    ensures
        ((bits & low_mask((c + 1) as u64)) == low_mask((c + 1) as u64)) == ((bits & low_mask(c))
            == low_mask(c) && bit_set(bits, c)),
{
    if c == 63 {
        assert(((bits & 0xffff_ffff_ffff_ffffu64) == 0xffff_ffff_ffff_ffffu64) == ((bits & (((1u64
            << 63u64) - 1u64) as u64)) == (((1u64 << 63u64) - 1u64) as u64) && (bits >> 63u64)
            & 1u64 == 1u64)) by (bit_vector);
    } else {
        assert(c < 63 ==> ((bits & (((1u64 << ((c + 1) as u64)) - 1u64) as u64)) == (((1u64 << ((c
            + 1) as u64)) - 1u64) as u64)) == ((bits & (((1u64 << c) - 1u64) as u64)) == (((1u64
            << c) - 1u64) as u64) && (bits >> c) & 1u64 == 1u64)) by (bit_vector);
    }
}

/// The lowest `c` bits are all set exactly when each of them is.
pub proof fn lemma_mask_all(bits: u64, c: u64)
    requires
        c <= 64,
    ensures
        ((bits & low_mask(c)) == low_mask(c)) == (forall|i: u64| i < c ==> bit_set(bits, i)),
    decreases c,
{
    if c == 0 {
        assert((bits & ((1u64 << 0u64) - 1u64) as u64) == ((1u64 << 0u64) - 1u64) as u64)
            by (bit_vector);
    } else {
        let p = (c - 1) as u64;
        lemma_mask_all(bits, p);
        lemma_mask_step(bits, p);
        if (bits & low_mask(c)) == low_mask(c) {
            assert forall|i: u64| i < c implies bit_set(bits, i) by {
                if i < p {
                } else {
                    assert(i == p);
                }
            }
        }
    }
}

impl RuleResults {
    /// No rule passed.
    pub fn empty() -> (r: RuleResults)
        ensures
            r.0 == 0,
    {
        RuleResults(0)
    }

    /// Records that rule `index` passed; a failure leaves the bits unchanged.
    pub fn set(&mut self, index: usize, passed: bool)
        requires
            index < 64,
        ensures
            final(self).0 == if passed {
                old(self).0 | (1u64 << index as u64)
            } else {
                old(self).0
            },
    {
        if passed {
            self.0 = self.0 | (1u64 << index as u64);
        }
    }

    /// Whether rule `index` is recorded as passed.
    pub fn get(self, index: usize) -> (r: bool)
        requires
            index < 64,
        ensures
            r == bit_set(self.0, index as u64),
    {
        (self.0 >> index as u64) & 1 == 1
    }

    /// Whether each of the first `count` rules (at most 64) is recorded as passed.
    pub fn all_passed(self, count: usize) -> (r: bool)
        ensures
            r == (forall|i: u64| i < count && i < 64 ==> bit_set(self.0, i)),
    {
        let mask: u64 = if count >= 64 {
            0xffff_ffff_ffff_ffffu64
        } else {
            let c64 = count as u64;
            assert(1u64 << c64 >= 1u64) by (bit_vector)
                requires
                    c64 < 64,
            ;
            (1u64 << c64) - 1
        };
        let c: u64 = if count >= 64 {
            64
        } else {
            count as u64
        };
        proof {
            lemma_mask_all(self.0, c);
            assert(mask == low_mask(c));
        }
        (self.0 & mask) == mask
    }
}

/// Summary of a completed child element, kept in its parent's context.
#[derive(Debug, Clone)]
pub struct ChildSummary {
    pub attrs: Vec<(String, String)>,
    pub text: String,
    pub descriptor_id: NodeId,
    pub index: u32,
    pub rule_results: RuleResults,
}

impl ChildSummary {
    /// Looks up an attribute of the child (the first one with that name).
    pub fn attr(&self, name: &str) -> (r: Option<&str>)
        ensures
            opt_str_view(r) == attr_value(self.attrs@, name@),
    {
        find_attr(self.attrs.as_slice(), name)
    }

    /// The declared tag of the child.
    pub fn tag<'a, R>(&self, tree: &'a DescriptorTree<R>) -> (r: &'a str)
        requires
            self.descriptor_id.0 < tree.nodes@.len(),
        ensures
            r@ == tree.nodes@[self.descriptor_id.0 as int].tag@,
    {
        tree.get(self.descriptor_id).tag.as_str()
    }
}

/// One element of a captured subtree.
pub struct SubtreeNode {
    pub tag: String,
    pub attrs: Vec<(String, String)>,
    pub text: String,
    pub children: Vec<SubtreeNode>,
}

/// The nodes of a forest in document order (each node before its descendants).
pub open spec fn forest_preorder(nodes: Seq<SubtreeNode>) -> Seq<SubtreeNode>
    decreases nodes,
{
    if nodes.len() == 0 {
        Seq::empty()
    } else {
        let first = nodes[0];
        proof {
            assert(decreases_to!(nodes => first));
            assert(decreases_to!(first => first.children));
            assert(decreases_to!(first.children => first.children@));
        }
        seq![first] + forest_preorder(first.children@) + forest_preorder(nodes.drop_first())
    }
}

/// The strict descendants of a node in document order.
pub open spec fn descendants_of(n: SubtreeNode) -> Seq<SubtreeNode> {
    forest_preorder(n.children@)
}

/// The first node of `s` with tag `tag`.
pub open spec fn first_tagged(s: Seq<SubtreeNode>, tag: Seq<char>) -> Option<SubtreeNode>
    decreases s.len(),
{
    if s.len() == 0 {
        None
    } else {
        match first_tagged(s.drop_last(), tag) {
            Some(n) => Some(n),
            None => if s.last().tag@ == tag {
                Some(s.last())
            } else {
                None
            },
        }
    }
}

/// The nodes of `s` with tag `tag`, in order.
pub open spec fn all_tagged(s: Seq<SubtreeNode>, tag: Seq<char>) -> Seq<SubtreeNode>
    decreases s.len(),
{
    if s.len() == 0 {
        Seq::empty()
    } else if s.last().tag@ == tag {
        all_tagged(s.drop_last(), tag).push(s.last())
    } else {
        all_tagged(s.drop_last(), tag)
    }
}

/// The nodes behind a sequence of references.
pub open spec fn deref_all<'b>(s: Seq<&'b SubtreeNode>) -> Seq<SubtreeNode> {
    s.map_values(|r: &'b SubtreeNode| *r)
}

/// What a traversal stack still yields: the top node, its descendants, then
/// the rest of the stack.
pub open spec fn stack_remaining(stack: Seq<SubtreeNode>) -> Seq<SubtreeNode>
    decreases stack.len(),
{
    if stack.len() == 0 {
        Seq::empty()
    } else {
        let t = stack.last();
        seq![t] + forest_preorder(t.children@) + stack_remaining(stack.drop_last())
    }
}

proof fn lemma_forest_unfold(s: Seq<SubtreeNode>, j: int)
    requires
        0 <= j < s.len(),
    ensures
        forest_preorder(s.subrange(j, s.len() as int)) == seq![s[j]] + forest_preorder(
            s[j].children@,
        ) + forest_preorder(s.subrange(j + 1, s.len() as int)),
{
    let sub = s.subrange(j, s.len() as int);
    assert(sub[0] == s[j]);
    assert(sub.drop_first() =~= s.subrange(j + 1, s.len() as int));
}

/// Traversal of a captured subtree in document order.
pub struct SubtreeDescendants<'b> {
    stack: Vec<&'b SubtreeNode>,
}

impl<'b> SubtreeDescendants<'b> {
    /// The nodes this traversal has yet to yield, in order.
    pub closed spec fn remaining(&self) -> Seq<SubtreeNode> {
        stack_remaining(deref_all(self.stack@))
    }

    /// Yields the next node in document order.
    pub fn next(&mut self) -> (r: Option<&'b SubtreeNode>)
        ensures
            r matches Some(n) ==> old(self).remaining() == seq![*n] + final(self).remaining(),
            r is None ==> old(self).remaining().len() == 0 && final(self).remaining().len() == 0,
    {
        let ghost old_stack = deref_all(self.stack@);
        let node = match self.stack.pop() {
            Some(n) => n,
            None => {
                return None;
            },
        };
        let ghost rest = deref_all(self.stack@);
        proof {
            assert(old_stack.drop_last() =~= rest);
            assert(old_stack.last() == *node);
        }
        let mut k: usize = node.children.len();
        let ghost cs = node.children@;
        proof {
            assert(cs.subrange(k as int, cs.len() as int) =~= Seq::<SubtreeNode>::empty());
            assert(deref_all(self.stack@) == rest);
        }
        while k > 0
            invariant
                cs == node.children@,
                k <= cs.len(),
                stack_remaining(deref_all(self.stack@)) == forest_preorder(
                    cs.subrange(k as int, cs.len() as int),
                ) + stack_remaining(rest),
            decreases k,
        {
            k = k - 1;
            let ghost before = deref_all(self.stack@);
            self.stack.push(&node.children[k]);
            proof {
                let after = deref_all(self.stack@);
                assert(after.drop_last() =~= before);
                assert(after.last() == cs[k as int]);
                lemma_forest_unfold(cs, k as int);
                assert(stack_remaining(after) == seq![cs[k as int]] + forest_preorder(
                    cs[k as int].children@,
                ) + stack_remaining(before));
            }
        }
        proof {
            assert(cs.subrange(0, cs.len() as int) =~= cs);
        }
        Some(node)
    }
}

/// `first_tagged` is the first element of `all_tagged`.
pub proof fn lemma_first_is_head_of_all(s: Seq<SubtreeNode>, tag: Seq<char>)
    ensures
        first_tagged(s, tag) == if all_tagged(s, tag).len() > 0 {
            Some(all_tagged(s, tag)[0])
        } else {
            None
        },
    decreases s.len(),
{
    if s.len() > 0 {
        lemma_first_is_head_of_all(s.drop_last(), tag);
    }
}

impl SubtreeNode {
    /// A traversal of the strict descendants of this node in document order.
    pub fn descendants(&self) -> (r: SubtreeDescendants<'_>)
        ensures
            r.remaining() == descendants_of(*self),
    {
        let mut stack: Vec<&SubtreeNode> = Vec::new();
        let mut k: usize = self.children.len();
        let ghost cs = self.children@;
        proof {
            assert(cs.subrange(k as int, cs.len() as int) =~= Seq::<SubtreeNode>::empty());
            assert(deref_all(stack@) =~= Seq::<SubtreeNode>::empty());
        }
        while k > 0
            invariant
                cs == self.children@,
                k <= cs.len(),
                stack_remaining(deref_all(stack@)) == forest_preorder(
                    cs.subrange(k as int, cs.len() as int),
                ),
            decreases k,
        {
            k = k - 1;
            let ghost before = deref_all(stack@);
            stack.push(&self.children[k]);
            proof {
                let after = deref_all(stack@);
                assert(after.drop_last() =~= before);
                assert(after.last() == cs[k as int]);
                lemma_forest_unfold(cs, k as int);
            }
        }
        proof {
            assert(cs.subrange(0, cs.len() as int) =~= cs);
        }
        SubtreeDescendants { stack }
    }

    /// The first strict descendant (in document order) with the given tag.
    pub fn find(&self, tag: &str) -> (r: Option<&SubtreeNode>)
        ensures
            opt_node_view(r) == first_tagged(descendants_of(*self), tag@),
    {
        let mut it = self.descendants();
        let ghost mut seen: Seq<SubtreeNode> = Seq::empty();
        loop
            invariant
                descendants_of(*self) == seen + it.remaining(),
                first_tagged(seen, tag@) is None,
            decreases it.remaining().len(),
        {
            match it.next() {
                Some(n) => {
                    proof {
                        assert(seen.push(*n).drop_last() =~= seen);
                        assert(descendants_of(*self) =~= seen.push(*n) + it.remaining());
                    }
                    if str_eq(n.tag.as_str(), tag) {
                        proof {
                            lemma_first_tagged_prefix(seen.push(*n), it.remaining(), tag@);
                        }
                        return Some(n);
                    }
                    proof {
                        seen = seen.push(*n);
                    }
                },
                None => {
                    proof {
                        assert(descendants_of(*self) =~= seen);
                    }
                    return None;
                },
            }
        }
    }

    /// All strict descendants (in document order) with the given tag.
    pub fn find_all(&self, tag: &str) -> (r: Vec<&SubtreeNode>)
        ensures
            deref_all(r@) == all_tagged(descendants_of(*self), tag@),
    {
        let mut out: Vec<&SubtreeNode> = Vec::new();
        let mut it = self.descendants();
        let ghost mut seen: Seq<SubtreeNode> = Seq::empty();
        loop
            invariant
                descendants_of(*self) == seen + it.remaining(),
                deref_all(out@) == all_tagged(seen, tag@),
            decreases it.remaining().len(),
        {
            match it.next() {
                Some(n) => {
                    proof {
                        assert(seen.push(*n).drop_last() =~= seen);
                        assert(descendants_of(*self) =~= seen.push(*n) + it.remaining());
                    }
                    if str_eq(n.tag.as_str(), tag) {
                        out.push(n);
                        proof {
                            assert(deref_all(out@) =~= all_tagged(seen, tag@).push(*n));
                        }
                    }
                    proof {
                        seen = seen.push(*n);
                    }
                },
                None => {
                    proof {
                        assert(descendants_of(*self) =~= seen);
                    }
                    return out;
                },
            }
        }
    }

    /// Looks up an attribute of this node (the first one with that name).
    pub fn attr(&self, name: &str) -> (r: Option<&str>)
        ensures
            opt_str_view(r) == attr_value(self.attrs@, name@),
    {
        find_attr(self.attrs.as_slice(), name)
    }
}

proof fn lemma_first_tagged_prefix(s: Seq<SubtreeNode>, t: Seq<SubtreeNode>, tag: Seq<char>)
    requires
        first_tagged(s, tag) is Some,
    ensures
        first_tagged(s + t, tag) == first_tagged(s, tag),
    decreases t.len(),
{
    if t.len() > 0 {
        lemma_first_tagged_prefix(s, t.drop_last(), tag);
        assert((s + t).drop_last() =~= s + t.drop_last());
    } else {
        assert(s + t =~= s);
    }
}

/// Finding a tag gives the first node that finding all of them gives.
pub proof fn lemma_find_agrees_with_find_all(n: SubtreeNode, tag: Seq<char>)
    ensures
        first_tagged(descendants_of(n), tag) == if all_tagged(descendants_of(n), tag).len() > 0 {
            Some(all_tagged(descendants_of(n), tag)[0])
        } else {
            None
        },
{
    lemma_first_is_head_of_all(descendants_of(n), tag);
}

/// A tracked element seen through the context stack of the streaming engine.
pub struct StreamingView<'a, R> {
    pub(crate) stack: &'a [NodeContext],
    pub(crate) index_in_stack: usize,
    pub(crate) tree: &'a DescriptorTree<R>,
}

impl<'a, R> StreamingView<'a, R> {
    #[verifier::type_invariant]
    closed spec fn inv(&self) -> bool {
        &&& self.index_in_stack < self.stack@.len()
        &&& forall|k: int|
            0 <= k <= self.index_in_stack ==> (#[trigger] self.stack@[k]).descriptor_id.0
                < self.tree.nodes@.len()
    }

    /// The context frame of the viewed element.
    pub closed spec fn frame(&self) -> NodeContext {
        self.stack@[self.index_in_stack as int]
    }

    /// A view of frame `index_in_stack` of `stack`, whose tracked ancestors
    /// are the frames below it.
    pub fn new(stack: &'a [NodeContext], index_in_stack: usize, tree: &'a DescriptorTree<R>) -> (r:
        StreamingView<'a, R>)
        requires
            index_in_stack < stack@.len(),
            forall|k: int|
                0 <= k <= index_in_stack ==> (#[trigger] stack@[k]).descriptor_id.0
                    < tree.nodes@.len(),
        ensures
            r.frame() == stack@[index_in_stack as int],
            r.spec_ancestors() == stack@.subrange(0, index_in_stack as int),
            r.spec_tag() == tree.nodes@[stack@[index_in_stack as int].descriptor_id.0 as int].tag@,
            r.spec_attrs() == stack@[index_in_stack as int].attrs@,
            r.spec_text() == stack@[index_in_stack as int].text@,
            r.spec_element_index() == stack@[index_in_stack as int].index,
            r.spec_path() == tree.path_of(stack@[index_in_stack as int].descriptor_id.0 as int),
            r.spec_children() == stack@[index_in_stack as int].children@,
            r.spec_subtree() is None,
    {
        StreamingView { stack, index_in_stack, tree }
    }

    /// A view of the element's tracked parent, if it has one.
    pub fn parent(&self) -> (r: Option<StreamingView<'a, R>>)
        ensures
            r is Some <==> self.spec_ancestors().len() > 0,
            r matches Some(p) ==> p.frame() == self.spec_ancestors().last()
                && p.spec_ancestors() == self.spec_ancestors().drop_last(),
    {
        proof {
            use_type_invariant(self);
        }
        if self.index_in_stack == 0 {
            None
        } else {
            let p = StreamingView {
                stack: self.stack,
                index_in_stack: self.index_in_stack - 1,
                tree: self.tree,
            };
            proof {
                assert(p.spec_ancestors() =~= self.spec_ancestors().drop_last());
            }
            Some(p)
        }
    }

    fn ctx(&self) -> (r: &NodeContext)
        ensures
            *r == self.frame(),
            r.descriptor_id.0 < self.tree.nodes@.len(),
    {
        proof {
            use_type_invariant(self);
        }
        &self.stack[self.index_in_stack]
    }
}

impl<'a, R> NodeAccess for StreamingView<'a, R> {
    closed spec fn spec_tag(&self) -> Seq<char> {
        self.tree.nodes@[self.frame().descriptor_id.0 as int].tag@
    }

    closed spec fn spec_attrs(&self) -> Seq<(String, String)> {
        self.frame().attrs@
    }

    closed spec fn spec_text(&self) -> Seq<char> {
        self.frame().text@
    }

    closed spec fn spec_element_index(&self) -> nat {
        self.frame().index as nat
    }

    closed spec fn spec_path(&self) -> Seq<Seq<char>> {
        segments_view(self.tree.nodes@[self.frame().descriptor_id.0 as int].full_path@)
    }

    closed spec fn spec_children(&self) -> Seq<ChildSummary> {
        self.frame().children@
    }

    closed spec fn spec_subtree(&self) -> Option<SubtreeNode> {
        None
    }

    closed spec fn spec_ancestors(&self) -> Seq<NodeContext> {
        self.stack@.subrange(0, self.index_in_stack as int)
    }

    fn tag(&self) -> (r: &str) {
        let c = self.ctx();
        self.tree.get(c.descriptor_id).tag.as_str()
    }

    fn attr(&self, name: &str) -> (r: Option<&str>) {
        find_attr(self.ctx().attrs.as_slice(), name)
    }

    fn attributes(&self) -> (r: &[(String, String)]) {
        self.ctx().attrs.as_slice()
    }

    fn text(&self) -> (r: &str) {
        self.ctx().text.as_str()
    }

    fn element_index(&self) -> (r: usize) {
        self.ctx().index as usize
    }

    fn path(&self) -> (r: &[PathSegment]) {
        let c = self.ctx();
        self.tree.get(c.descriptor_id).full_path.as_slice()
    }

    fn children_summaries(&self) -> (r: &[ChildSummary]) {
        self.ctx().children.as_slice()
    }

    fn subtree(&self) -> (r: Option<&SubtreeNode>) {
        None
    }

    fn depth(&self) -> (r: usize) {
        proof {
            use_type_invariant(self);
        }
        self.index_in_stack
    }

    fn ancestor_attr(&self, level: usize, name: &str) -> (r: Option<&str>) {
        proof {
            use_type_invariant(self);
        }
        if level < self.index_in_stack {
            let idx = self.index_in_stack - 1 - level;
            find_attr(self.stack[idx].attrs.as_slice(), name)
        } else {
            None
        }
    }

    fn ancestor_text(&self, level: usize) -> (r: Option<&str>) {
        proof {
            use_type_invariant(self);
        }
        if level < self.index_in_stack {
            let idx = self.index_in_stack - 1 - level;
            Some(self.stack[idx].text.as_str())
        } else {
            None
        }
    }

    fn ancestor_children(&self, level: usize) -> (r: Option<&[ChildSummary]>) {
        proof {
            use_type_invariant(self);
        }
        if level < self.index_in_stack {
            let idx = self.index_in_stack - 1 - level;
            Some(self.stack[idx].children.as_slice())
        } else {
            None
        }
    }
}

/// A captured element seen through its materialized subtree.
pub struct SubtreeView<'a, R> {
    pub(crate) root: &'a SubtreeNode,
    pub(crate) descriptor_id: NodeId,
    pub(crate) index: u32,
    pub(crate) parent_stack: &'a [NodeContext],
    pub(crate) tree: &'a DescriptorTree<R>,
}

impl<'a, R> SubtreeView<'a, R> {
    #[verifier::type_invariant]
    closed spec fn inv(&self) -> bool {
        self.descriptor_id.0 < self.tree.nodes@.len()
    }

    /// A view of a captured subtree whose tracked ancestors are `parent_stack`.
    pub fn new(
        root: &'a SubtreeNode,
        descriptor_id: NodeId,
        index: u32,
        parent_stack: &'a [NodeContext],
        tree: &'a DescriptorTree<R>,
    ) -> (r: SubtreeView<'a, R>)
        requires
            descriptor_id.0 < tree.nodes@.len(),
        ensures
            r.spec_subtree() == Some(*root),
            r.spec_tag() == root.tag@,
            r.spec_attrs() == root.attrs@,
            r.spec_text() == root.text@,
            r.spec_element_index() == index,
            r.spec_path() == tree.path_of(descriptor_id.0 as int),
            r.spec_children() == Seq::<ChildSummary>::empty(),
            r.spec_ancestors() == parent_stack@,
    {
        SubtreeView { root, descriptor_id, index, parent_stack, tree }
    }
}

impl<'a, R> NodeAccess for SubtreeView<'a, R> {
    closed spec fn spec_tag(&self) -> Seq<char> {
        self.root.tag@
    }

    closed spec fn spec_attrs(&self) -> Seq<(String, String)> {
        self.root.attrs@
    }

    closed spec fn spec_text(&self) -> Seq<char> {
        self.root.text@
    }

    closed spec fn spec_element_index(&self) -> nat {
        self.index as nat
    }

    closed spec fn spec_path(&self) -> Seq<Seq<char>> {
        segments_view(self.tree.nodes@[self.descriptor_id.0 as int].full_path@)
    }

    closed spec fn spec_children(&self) -> Seq<ChildSummary> {
        Seq::empty()
    }

    closed spec fn spec_subtree(&self) -> Option<SubtreeNode> {
        Some(*self.root)
    }

    closed spec fn spec_ancestors(&self) -> Seq<NodeContext> {
        self.parent_stack@
    }

    fn tag(&self) -> (r: &str) {
        self.root.tag.as_str()
    }

    fn attr(&self, name: &str) -> (r: Option<&str>) {
        self.root.attr(name)
    }

    fn attributes(&self) -> (r: &[(String, String)]) {
        self.root.attrs.as_slice()
    }

    fn text(&self) -> (r: &str) {
        self.root.text.as_str()
    }

    fn element_index(&self) -> (r: usize) {
        self.index as usize
    }

    fn path(&self) -> (r: &[PathSegment]) {
        proof {
            use_type_invariant(self);
        }
        self.tree.get(self.descriptor_id).full_path.as_slice()
    }

    fn children_summaries(&self) -> (r: &[ChildSummary]) {
        let r: &[ChildSummary] = &[];
        proof {
            assert(r@ =~= Seq::<ChildSummary>::empty());
        }
        r
    }

    fn subtree(&self) -> (r: Option<&SubtreeNode>) {
        Some(self.root)
    }

    fn depth(&self) -> (r: usize) {
        self.parent_stack.len()
    }

    fn ancestor_attr(&self, level: usize, name: &str) -> (r: Option<&str>) {
        if level < self.parent_stack.len() {
            let idx = self.parent_stack.len() - 1 - level;
            find_attr(self.parent_stack[idx].attrs.as_slice(), name)
        } else {
            None
        }
    }

    fn ancestor_text(&self, level: usize) -> (r: Option<&str>) {
        if level < self.parent_stack.len() {
            let idx = self.parent_stack.len() - 1 - level;
            Some(self.parent_stack[idx].text.as_str())
        } else {
            None
        }
    }

    fn ancestor_children(&self, level: usize) -> (r: Option<&[ChildSummary]>) {
        if level < self.parent_stack.len() {
            let idx = self.parent_stack.len() - 1 - level;
            Some(self.parent_stack[idx].children.as_slice())
        } else {
            None
        }
    }
}

} // verus!
