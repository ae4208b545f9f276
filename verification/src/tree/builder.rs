use vstd::prelude::*;

use crate::error::BuilderError;
use crate::rule::Rule;
use std::collections::HashMap;

use crate::reader::parser::{fnv1a, hash_tag};
use crate::tree::descriptor::{
    has_flags, tag_hash, AccessMode, DescriptorNode, DescriptorTree, NodeNeeds,
};
use crate::tree::path::{
    copy_path, format_path, join_path, paths_equal, segments_view, NodeId, PathSegment,
};

verus! {

struct NodeDeclaration<R> {
    tag: PathSegment,
    full_path: Vec<PathSegment>,
    is_capture: bool,
    rules: Vec<R>,
    parent_index: Option<usize>,
}

/// What the builder knows of one declared node.
pub ghost struct DeclModel<R> {
    pub tag: Seq<char>,
    pub path: Seq<Seq<char>>,
    pub capture: bool,
    pub rules: Seq<R>,
    pub parent: Option<usize>,
}

spec fn decl_model<R>(d: NodeDeclaration<R>) -> DeclModel<R> {
    DeclModel {
        tag: d.tag@,
        path: segments_view(d.full_path@),
        capture: d.is_capture,
        rules: d.rules@,
        parent: d.parent_index,
    }
}

/// Declarations form a tree rooted at the first one: each later declaration
/// names an earlier parent and extends its path by its own tag.
pub open spec fn decls_wf<R>(d: Seq<DeclModel<R>>) -> bool {
    &&& 1 <= d.len() <= u32::MAX
    &&& d[0].parent is None
    &&& d[0].path == seq![d[0].tag]
    &&& forall|i: int|
        #![trigger d[i].parent]
        1 <= i < d.len() ==> (d[i].parent matches Some(p) && p < i)
    &&& forall|i: int|
        #![trigger d[i].path]
        1 <= i < d.len() ==> d[i].path == d[d[i].parent->0 as int].path.push(d[i].tag)
}

/// Declaration `i` has the same path as an earlier one.
pub open spec fn dup_at<R>(d: Seq<DeclModel<R>>, i: int) -> bool {
    exists|j: int| 0 <= j < i && d[j].path == d[i].path
}

/// `ns[i][k]`, for each entry of `ns`, is a value that `needs` returned for
/// rule `k` of declaration `i`.
pub open spec fn needs_returned<R: Rule>(d: Seq<DeclModel<R>>, ns: Seq<Seq<NodeNeeds>>) -> bool {
    &&& ns.len() <= d.len()
    &&& forall|i: int| 0 <= i < ns.len() ==> #[trigger] ns[i].len() <= d[i].rules.len()
    &&& forall|i: int, k: int|
        0 <= i < ns.len() && 0 <= k < ns[i].len() ==> call_ensures(
            R::needs,
            (&d[i].rules[k],),
            #[trigger] ns[i][k],
        )
}

/// `ns` holds a value for every rule of every declaration.
pub open spec fn needs_complete<R>(d: Seq<DeclModel<R>>, ns: Seq<Seq<NodeNeeds>>) -> bool {
    &&& ns.len() == d.len()
    &&& forall|i: int| 0 <= i < d.len() ==> #[trigger] ns[i].len() == d[i].rules.len()
}

/// Rule `k` of declaration `i` declared (as `ns[i][k]`) that it needs
/// capture, but the declaration streams.
pub open spec fn conflict_at<R>(d: Seq<DeclModel<R>>, ns: Seq<Seq<NodeNeeds>>, i: int, k: int) -> bool {
    &&& 0 <= i < ns.len()
    &&& 0 <= k < ns[i].len()
    &&& !d[i].capture
    &&& has_flags(ns[i][k].0, 8u8)
}

/// No rule declared, in `ns`, a need for capture on a streaming declaration.
pub open spec fn no_conflict<R>(d: Seq<DeclModel<R>>, ns: Seq<Seq<NodeNeeds>>) -> bool {
    forall|i: int, k: int| !#[trigger] conflict_at(d, ns, i, k)
}

/// `(i, k)` is the first rule, in declaration order, that `ns` records as
/// needing capture on a streaming declaration; `ns` covers the rules up to
/// it and no further.
pub open spec fn first_conflict<R: Rule>(d: Seq<DeclModel<R>>, ns: Seq<Seq<NodeNeeds>>, i: int, k: int) -> bool {
    &&& needs_returned(d, ns)
    &&& 0 <= i < d.len()
    &&& ns.len() == i + 1
    &&& forall|i2: int| 0 <= i2 < i ==> #[trigger] ns[i2].len() == d[i2].rules.len()
    &&& ns[i].len() == k + 1
    &&& conflict_at(d, ns, i, k)
    &&& forall|i2: int, k2: int|
        (i2 < i || (i2 == i && k2 < k)) ==> !#[trigger] conflict_at(d, ns, i2, k2)
}

/// Whatever `needs` returns for any rule of a streaming declaration, it
/// asks for no capture.
pub open spec fn never_conflicts<R: Rule>(d: Seq<DeclModel<R>>) -> bool {
    forall|i: int, k: int, v: NodeNeeds|
        0 <= i < d.len() && 0 <= k < d[i].rules.len() && !d[i].capture && #[trigger] call_ensures(
            R::needs,
            (&d[i].rules[k],),
            v,
        ) ==> !has_flags(v.0, 8u8)
}

/// Rule `k` of the streaming declaration `i` asks for capture whatever
/// `needs` returns.
pub open spec fn always_conflicts_at<R: Rule>(d: Seq<DeclModel<R>>, i: int, k: int) -> bool {
    &&& 0 <= i < d.len()
    &&& 0 <= k < d[i].rules.len()
    &&& !d[i].capture
    &&& forall|v: NodeNeeds| #[trigger] call_ensures(R::needs, (&d[i].rules[k],), v) ==> has_flags(v.0, 8u8)
}

/// The nearest ancestor of declaration `i` that captures its subtree.
pub open spec fn capture_ancestor<R>(d: Seq<DeclModel<R>>, i: int) -> Option<int>
    decreases i,
{
    if 0 <= i < d.len() {
        match d[i].parent {
            Some(p) => if p < i {
                if d[p as int].capture {
                    Some(p as int)
                } else {
                    capture_ancestor(d, p as int)
                }
            } else {
                None
            },
            None => None,
        }
    } else {
        None
    }
}

/// Declaration `i` captures inside a capturing ancestor.
pub open spec fn nested_at<R>(d: Seq<DeclModel<R>>, i: int) -> bool {
    d[i].capture && capture_ancestor(d, i) is Some
}

/// `d` with declaration `i` set to capture its subtree (`capture`) or to stream.
pub open spec fn with_capture<R>(d: Seq<DeclModel<R>>, i: int, capture: bool) -> Seq<DeclModel<R>> {
    d.update(i, DeclModel { capture, ..d[i] })
}

/// Of two mode switches of one declaration, the last one wins: streaming
/// twice, or after capture mode, declares what streaming once does.
pub proof fn lemma_last_mode_wins<R>(d: Seq<DeclModel<R>>, i: int, first: bool, second: bool)
    requires
        0 <= i < d.len(),
    ensures
        with_capture(with_capture(d, i, first), i, second) == with_capture(d, i, second),
{
    assert(with_capture(with_capture(d, i, first), i, second) =~= with_capture(d, i, second));
}

/// Union of the needs in `ns`.
pub open spec fn rules_needs(ns: Seq<NodeNeeds>) -> u8
    decreases ns.len(),
{
    if ns.len() == 0 {
        0u8
    } else {
        rules_needs(ns.drop_last()) | ns.last().0
    }
}

/// Some declaration names `i` as its parent.
pub open spec fn has_child<R>(d: Seq<DeclModel<R>>, i: int) -> bool {
    exists|j: int| 0 <= j < d.len() && d[j].parent == Some(i as usize)
}

/// Needs of the built node `i`: the needs its rules returned (`ns[i]`),
/// capture for capture nodes, and attributes and text for nodes with
/// declared children.
pub open spec fn built_needs<R>(d: Seq<DeclModel<R>>, ns: Seq<Seq<NodeNeeds>>, i: int) -> u8 {
    rules_needs(ns[i]) | (if d[i].capture {
        8u8
    } else {
        0u8
    }) | (if has_child(d, i) {
        3u8
    } else {
        0u8
    })
}

/// `b` is a single flag bit.
pub open spec fn single_flag(b: u8) -> bool {
    b == 1u8 || b == 2u8 || b == 4u8 || b == 8u8 || b == 16u8 || b == 32u8 || b == 64u8 || b == 128u8
}

proof fn lemma_or_flag(x: u8, y: u8, b: u8)
    requires
        single_flag(b),
    ensures
        has_flags(x | y, b) <==> has_flags(x, b) || has_flags(y, b),
        !has_flags(0u8, b),
        has_flags(8u8, b) <==> b == 8u8,
        has_flags(3u8, b) <==> b == 1u8 || b == 2u8,
{
    assert((b == 1u8 || b == 2u8 || b == 4u8 || b == 8u8 || b == 16u8 || b == 32u8 || b == 64u8
        || b == 128u8) ==> (((x | y) & b == b) <==> (x & b == b || y & b == b)) && (0u8 & b != b)
        && ((8u8 & b == b) <==> b == 8u8) && ((3u8 & b == b) <==> (b == 1u8 || b == 2u8)))
        by (bit_vector);
}

proof fn lemma_union_flag(ns: Seq<NodeNeeds>, b: u8)
    requires
        single_flag(b),
    ensures
        has_flags(rules_needs(ns), b) <==> exists|k: int| 0 <= k < ns.len() && has_flags(#[trigger] ns[k].0, b),
    decreases ns.len(),
{
    lemma_or_flag(0u8, 0u8, b);
    if ns.len() > 0 {
        lemma_union_flag(ns.drop_last(), b);
        lemma_or_flag(rules_needs(ns.drop_last()), ns.last().0, b);
        if has_flags(rules_needs(ns), b) {
            if has_flags(ns.last().0, b) {
                assert(has_flags(ns[ns.len() - 1].0, b));
            } else {
                let k = choose|k: int| 0 <= k < ns.len() - 1 && has_flags(#[trigger] ns.drop_last()[k].0, b);
                assert(ns[k] == ns.drop_last()[k]);
            }
        }
        if exists|k: int| 0 <= k < ns.len() && has_flags(#[trigger] ns[k].0, b) {
            let k = choose|k: int| 0 <= k < ns.len() && has_flags(#[trigger] ns[k].0, b);
            if k < ns.len() - 1 {
                assert(ns.drop_last()[k] == ns[k]);
            }
        }
    }
}

/// The needs of a built node are the union of what its rules' `needs`
/// returned, plus capture for a capture node and attributes and text for a
/// node with declared children: a flag is set exactly when one of its
/// rules returned it or one of those two reasons holds. In particular the
/// node holds every flag of every one of its rules.
pub proof fn lemma_node_needs_are_the_rules_union<R>(
    d: Seq<DeclModel<R>>,
    ns: Seq<Seq<NodeNeeds>>,
    t: DescriptorTree<R>,
    i: int,
    b: u8,
)
    requires
        0 <= i < d.len(),
        i < ns.len(),
        node_built_from(d, ns, t, i),
        single_flag(b),
    ensures
        has_flags(t.nodes@[i].needs.0, b) <==> (exists|k: int|
            0 <= k < ns[i].len() && has_flags(#[trigger] ns[i][k].0, b)) || (b == 8u8 && d[i].capture)
            || ((b == 1u8 || b == 2u8) && has_child(d, i)),
        forall|k: int| 0 <= k < ns[i].len() ==> has_flags(t.nodes@[i].needs.0, #[trigger] ns[i][k].0),
{
    let cap: u8 = if d[i].capture { 8u8 } else { 0u8 };
    let ch: u8 = if has_child(d, i) { 3u8 } else { 0u8 };
    lemma_union_flag(ns[i], b);
    lemma_or_flag(rules_needs(ns[i]) | cap, ch, b);
    lemma_or_flag(rules_needs(ns[i]), cap, b);
    lemma_or_flag(0u8, 0u8, b);
    assert forall|k: int| 0 <= k < ns[i].len() implies has_flags(t.nodes@[i].needs.0, #[trigger] ns[i][k].0) by {
        lemma_union_contains(ns[i], k);
        let x = rules_needs(ns[i]);
        let y = ns[i][k].0;
        assert(x & y == y ==> ((x | cap) | ch) & y == y) by (bit_vector);
    }
}

/// A built node's summary needs are everything (attributes, text and
/// children) exactly when its parent's needs hold the children flag, and
/// nothing otherwise.
pub proof fn lemma_summary_needs_follow_parent<R>(
    d: Seq<DeclModel<R>>,
    ns: Seq<Seq<NodeNeeds>>,
    t: DescriptorTree<R>,
    i: int,
)
    requires
        decls_wf(d),
        0 <= i < d.len(),
        forall|j: int| 0 <= j < d.len() ==> node_built_from(d, ns, t, j),
    ensures
        t.nodes@[i].summary_needs.0 == (match d[i].parent {
            Some(p) => if has_flags(t.nodes@[p as int].needs.0, 4u8) {
                7u8
            } else {
                0u8
            },
            None => 0u8,
        }),
{
    assert(node_built_from(d, ns, t, i));
    if let Some(p) = d[i].parent {
        if i == 0 {
            assert(d[0].parent is None);
        }
        assert(node_built_from(d, ns, t, p as int));
    }
}

proof fn lemma_union_contains(ns: Seq<NodeNeeds>, k: int)
    requires
        0 <= k < ns.len(),
    ensures
        has_flags(rules_needs(ns), ns[k].0),
    decreases ns.len(),
{
    let x = rules_needs(ns.drop_last());
    let l = ns.last().0;
    if k < ns.len() - 1 {
        lemma_union_contains(ns.drop_last(), k);
        let y = ns[k].0;
        assert(ns.drop_last()[k] == ns[k]);
        assert(x & y == y ==> (x | l) & y == y) by (bit_vector);
    } else {
        assert((x | l) & l == l) by (bit_vector);
    }
}

/// Summary needs of the built node `i`: everything when its parent reads children.
pub open spec fn built_summary_needs<R>(d: Seq<DeclModel<R>>, ns: Seq<Seq<NodeNeeds>>, i: int) -> u8 {
    match d[i].parent {
        Some(p) => if has_flags(built_needs(d, ns, p as int), 4u8) {
            7u8
        } else {
            0u8
        },
        None => 0u8,
    }
}

/// No declaration repeats an earlier path.
pub open spec fn no_dup<R>(d: Seq<DeclModel<R>>) -> bool {
    forall|i: int| 0 <= i < d.len() ==> !dup_at(d, i)
}

/// No capturing declaration sits inside a capturing ancestor.
pub open spec fn no_nested<R>(d: Seq<DeclModel<R>>) -> bool {
    forall|i: int| 0 <= i < d.len() ==> !nested_at(d, i)
}

/// The node id a declaration names as its parent.
pub open spec fn parent_id_of(p: Option<usize>) -> Option<NodeId> {
    match p {
        Some(q) => Some(NodeId(q as u32)),
        None => None,
    }
}

/// Node `i` of `t` was built from declaration `i` of `d`, its rules having
/// returned the needs `ns[i]`.
pub open spec fn node_built_from<R>(
    d: Seq<DeclModel<R>>,
    ns: Seq<Seq<NodeNeeds>>,
    t: DescriptorTree<R>,
    i: int,
) -> bool {
    &&& t.nodes@[i].tag@ == d[i].tag
    &&& t.path_of(i) == d[i].path
    &&& t.nodes@[i].access_mode == (if d[i].capture {
        AccessMode::CaptureSubtree
    } else {
        AccessMode::Streaming
    })
    &&& t.nodes@[i].rules@ == d[i].rules
    &&& t.nodes@[i].parent_id == parent_id_of(d[i].parent)
    &&& t.nodes@[i].needs.0 == built_needs(d, ns, i)
    &&& t.nodes@[i].summary_needs.0 == built_summary_needs(d, ns, i)
    &&& forall|k1: int, k2: int|
        0 <= k1 < k2 < t.nodes@[i].child_ids@.len() ==> t.nodes@[i].child_ids@[k1].0
            < t.nodes@[i].child_ids@[k2].0
}

/// Fluent builder for a [`DescriptorTree`]: declare the root, then nodes,
/// their access modes and rules, with `node`/`done` opening and closing them.
pub struct TreeBuilder<R> {
    declarations: Vec<NodeDeclaration<R>>,
    parent_stack: Vec<usize>,
    capture_memory_limit: usize,
}

impl<R> TreeBuilder<R> {
    #[verifier::type_invariant]
    closed spec fn inv(&self) -> bool {
        &&& decls_wf(self.model())
        &&& self.parent_stack@.len() >= 1
        &&& self.parent_stack@[0] == 0
        &&& forall|k: int|
            0 <= k < self.parent_stack@.len() ==> #[trigger] self.parent_stack@[k]
                < self.declarations@.len()
    }

    /// The declarations so far, in declaration order.
    pub closed spec fn model(&self) -> Seq<DeclModel<R>> {
        self.declarations@.map_values(|d: NodeDeclaration<R>| decl_model(d))
    }

    /// The open declarations, outermost first; the last one is current.
    pub closed spec fn open_stack(&self) -> Seq<usize> {
        self.parent_stack@
    }

    /// The configured capture memory limit.
    pub closed spec fn limit(&self) -> usize {
        self.capture_memory_limit
    }

    /// The declaration that `streaming`, `capture_subtree`, `rule` and `node` act on.
    pub open spec fn current(&self) -> int {
        self.open_stack().last() as int
    }

    /// The declarations form a tree rooted at the first one, and the open
    /// declarations are declared ones, the root first.
    pub open spec fn wf(&self) -> bool {
        &&& decls_wf(self.model())
        &&& self.open_stack().len() >= 1
        &&& self.open_stack()[0] == 0
        &&& forall|k: int|
            0 <= k < self.open_stack().len() ==> #[trigger] self.open_stack()[k]
                < self.model().len()
    }

    fn top(&self) -> (r: usize)
        ensures
            r == self.current(),
            r < self.declarations@.len(),
    {
        proof {
            use_type_invariant(self);
        }
        self.parent_stack[self.parent_stack.len() - 1]
    }
}

impl<R: Rule> TreeBuilder<R> {
    /// A builder whose root node has tag `root_tag`, streaming, with no rules,
    /// and a capture memory limit of 64 MiB.
    pub fn new(root_tag: &str) -> (r: TreeBuilder<R>)
        ensures
            r.model() == seq![
                DeclModel::<R> {
                    tag: root_tag@,
                    path: seq![root_tag@],
                    capture: false,
                    rules: Seq::empty(),
                    parent: None,
                },
            ],
            r.open_stack() == seq![0usize],
            r.limit() == 64 * 1024 * 1024,
            r.wf(),
    {
        let mut full_path: Vec<PathSegment> = Vec::new();
        full_path.push(PathSegment::new(root_tag));
        let decl = NodeDeclaration {
            tag: PathSegment::new(root_tag),
            full_path,
            is_capture: false,
            rules: Vec::new(),
            parent_index: None,
        };
        let mut declarations: Vec<NodeDeclaration<R>> = Vec::new();
        declarations.push(decl);
        let mut parent_stack: Vec<usize> = Vec::new();
        parent_stack.push(0);
        proof {
            assert(segments_view(decl.full_path@) =~= seq![root_tag@]);
            assert(declarations@.map_values(|d: NodeDeclaration<R>| decl_model(d)) =~= seq![
                decl_model(decl),
            ]);
        }
        let r = TreeBuilder { declarations, parent_stack, capture_memory_limit: 64 * 1024 * 1024 };
        proof {
            use_type_invariant(&r);
        }
        r
    }

    /// Sets the current node to streaming mode.
    pub fn streaming(self) -> (r: TreeBuilder<R>)
        ensures
            r.model() == with_capture(self.model(), self.current(), false),
            r.open_stack() == self.open_stack(),
            r.limit() == self.limit(),
            r.wf(),
    {
        self.set_capture(false)
    }

    /// Sets the current node to capture its whole subtree.
    pub fn capture_subtree(self) -> (r: TreeBuilder<R>)
        ensures
            r.model() == with_capture(self.model(), self.current(), true),
            r.open_stack() == self.open_stack(),
            r.limit() == self.limit(),
            r.wf(),
    {
        self.set_capture(true)
    }

    fn set_capture(self, capture: bool) -> (r: TreeBuilder<R>)
        ensures
            r.model() == with_capture(self.model(), self.current(), capture),
            r.open_stack() == self.open_stack(),
            r.limit() == self.limit(),
            r.wf(),
    {
        let idx = self.top();
        let ghost old_model = self.model();
        proof {
            use_type_invariant(&self);
        }
        let TreeBuilder { mut declarations, parent_stack, capture_memory_limit } = self;
        declarations[idx].is_capture = capture;
        proof {
            let nm = declarations@.map_values(|d: NodeDeclaration<R>| decl_model(d));
            assert(nm =~= old_model.update(
                idx as int,
                DeclModel { capture: capture, ..old_model[idx as int] },
            ));
            assert(decls_wf(nm));
        }
        let r = TreeBuilder { declarations, parent_stack, capture_memory_limit };
        proof {
            use_type_invariant(&r);
        }
        r
    }

    /// Adds a rule to the current node.
    pub fn rule(self, rule: R) -> (r: TreeBuilder<R>)
        ensures
            r.model() == self.model().update(
                self.current(),
                DeclModel {
                    rules: self.model()[self.current()].rules.push(rule),
                    ..self.model()[self.current()]
                },
            ),
            r.open_stack() == self.open_stack(),
            r.limit() == self.limit(),
            r.wf(),
    {
        let idx = self.top();
        let ghost old_model = self.model();
        proof {
            use_type_invariant(&self);
        }
        let TreeBuilder { mut declarations, parent_stack, capture_memory_limit } = self;
        declarations[idx].rules.push(rule);
        proof {
            let nm = declarations@.map_values(|d: NodeDeclaration<R>| decl_model(d));
            assert(nm =~= old_model.update(
                idx as int,
                DeclModel { rules: old_model[idx as int].rules.push(rule), ..old_model[idx as int] },
            ));
            assert(decls_wf(nm));
        }
        let r = TreeBuilder { declarations, parent_stack, capture_memory_limit };
        proof {
            use_type_invariant(&r);
        }
        r
    }

    /// Declares a child of the current node with tag `tag` (streaming, no
    /// rules) and makes it current.
    pub fn node(self, tag: &str) -> (r: TreeBuilder<R>)
        requires
            self.model().len() < u32::MAX,
        ensures
            r.model() == self.model().push(
                DeclModel {
                    tag: tag@,
                    path: self.model()[self.current()].path.push(tag@),
                    capture: false,
                    rules: Seq::empty(),
                    parent: Some(self.current() as usize),
                },
            ),
            r.open_stack() == self.open_stack().push(self.model().len() as usize),
            r.limit() == self.limit(),
            r.wf(),
    {
        let parent_idx = self.top();
        let ghost old_model = self.model();
        proof {
            use_type_invariant(&self);
        }
        let TreeBuilder { mut declarations, mut parent_stack, capture_memory_limit } = self;
        let mut full_path = copy_path(declarations[parent_idx].full_path.as_slice());
        full_path.push(PathSegment::new(tag));
        let child_idx = declarations.len();
        let decl = NodeDeclaration {
            tag: PathSegment::new(tag),
            full_path,
            is_capture: false,
            rules: Vec::new(),
            parent_index: Some(parent_idx),
        };
        proof {
            assert(segments_view(decl.full_path@) =~= old_model[parent_idx as int].path.push(tag@));
        }
        declarations.push(decl);
        parent_stack.push(child_idx);
        proof {
            let nm = declarations@.map_values(|d: NodeDeclaration<R>| decl_model(d));
            assert(nm =~= old_model.push(decl_model(decl)));
            assert(decls_wf(nm)) by {
                assert forall|i: int| 1 <= i < nm.len() implies nm[i].path == nm[nm[i].parent->0 as int].path.push(nm[i].tag) by {
                    if i < old_model.len() {
                        assert(nm[i] == old_model[i]);
                    }
                }
            }
        }
        let r = TreeBuilder { declarations, parent_stack, capture_memory_limit };
        proof {
            use_type_invariant(&r);
        }
        r
    }

    /// Closes the current node; its parent becomes current.
    pub fn done(self) -> (r: TreeBuilder<R>)
        requires
            self.open_stack().len() > 1,
        ensures
            r.model() == self.model(),
            r.open_stack() == self.open_stack().drop_last(),
            r.limit() == self.limit(),
            r.wf(),
    {
        proof {
            use_type_invariant(&self);
        }
        let TreeBuilder { declarations, mut parent_stack, capture_memory_limit } = self;
        parent_stack.pop();
        let r = TreeBuilder { declarations, parent_stack, capture_memory_limit };
        proof {
            use_type_invariant(&r);
        }
        r
    }

    /// Sets the memory limit, in bytes, for each captured subtree.
    pub fn capture_limit(self, bytes: usize) -> (r: TreeBuilder<R>)
        ensures
            r.model() == self.model(),
            r.open_stack() == self.open_stack(),
            r.limit() == bytes,
            r.wf(),
    {
        proof {
            use_type_invariant(&self);
        }
        let TreeBuilder { declarations, parent_stack, capture_memory_limit: _ } = self;
        let r = TreeBuilder { declarations, parent_stack, capture_memory_limit: bytes };
        proof {
            use_type_invariant(&r);
        }
        r
    }
}

/// Some entry of `parents` names `i`.
spec fn parents_have_child(parents: Seq<Option<usize>>, i: int) -> bool {
    exists|j: int| 0 <= j < parents.len() && parents[j] == Some(i as usize)
}

fn has_child_exec(parents: &Vec<Option<usize>>, i: usize) -> (r: bool)
    ensures
        r == parents_have_child(parents@, i as int),
{
    let mut j: usize = 0;
    while j < parents.len()
        invariant
            j <= parents@.len(),
            forall|j2: int| 0 <= j2 < j ==> parents@[j2] != Some(i),
        decreases parents.len() - j,
    {
        if parents[j] == Some(i) {
            return true;
        }
        j = j + 1;
    }
    false
}

/// The ids of the entries of `parents` that name `i`, in increasing order.
fn children_of(parents: &Vec<Option<usize>>, i: usize) -> (r: Vec<NodeId>)
    requires
        parents@.len() <= u32::MAX,
    ensures
        forall|k: int|
            0 <= k < r@.len() ==> (#[trigger] r@[k]).0 < parents@.len() && parents@[r@[k].0 as int]
                == Some(i),
        forall|j: int|
            0 <= j < parents@.len() && parents@[j] == Some(i) ==> r@.contains(NodeId(j as u32)),
        forall|k1: int, k2: int| 0 <= k1 < k2 < r@.len() ==> r@[k1].0 < r@[k2].0,
{
    let mut r: Vec<NodeId> = Vec::new();
    let mut j: usize = 0;
    while j < parents.len()
        invariant
            parents@.len() <= u32::MAX,
            j <= parents@.len(),
            forall|k: int|
                0 <= k < r@.len() ==> (#[trigger] r@[k]).0 < j && parents@[r@[k].0 as int] == Some(
                    i,
                ),
            forall|j2: int| 0 <= j2 < j && parents@[j2] == Some(i) ==> r@.contains(NodeId(j2 as u32)),
            forall|k1: int, k2: int| 0 <= k1 < k2 < r@.len() ==> r@[k1].0 < r@[k2].0,
        decreases parents.len() - j,
    {
        let ghost before = r@;
        if parents[j] == Some(i) {
            r.push(NodeId(j as u32));
            proof {
                assert(r@[r@.len() - 1] == NodeId(j as u32));
                assert forall|x: NodeId| before.contains(x) implies r@.contains(x) by {
                    let w = choose|w: int| 0 <= w < before.len() && before[w] == x;
                    assert(r@[w] == x);
                }
            }
        }
        j = j + 1;
    }
    r
}

/// The hash of a path's joined form, under which the duplicate check files it.
spec fn path_hash(path: Seq<Seq<char>>) -> u64 {
    fnv1a(vstd::utf8::encode_utf8(join_path(path)))
}

/// Node `c` of `nodes` is listed, in the index of its declared parent,
/// under the hash of its tag.
spec fn indexed_in_parent<R>(nodes: Seq<DescriptorNode<R>>, d: Seq<DeclModel<R>>, c: int) -> bool {
    let p = d[c].parent->0 as int;
    let h = tag_hash(nodes[c].tag@);
    &&& nodes[p].child_tag_index@.contains_key(h)
    &&& nodes[p].child_tag_index@[h]@.contains(NodeId(c as u32))
}

/// `node` is declaration `j` of `d` built with the children that `parents` lists.
spec fn built_node<R>(
    d: Seq<DeclModel<R>>,
    ns: Seq<Seq<NodeNeeds>>,
    node: DescriptorNode<R>,
    j: int,
    parents: Seq<Option<usize>>,
) -> bool {
    &&& node.tag@ == d[j].tag
    &&& segments_view(node.full_path@) == d[j].path
    &&& node.access_mode == (if d[j].capture {
        AccessMode::CaptureSubtree
    } else {
        AccessMode::Streaming
    })
    &&& node.rules@ == d[j].rules
    &&& node.parent_id == parent_id_of(d[j].parent)
    &&& node.needs.0 == built_needs(d, ns, j)
    &&& node.summary_needs.0 == built_summary_needs(d, ns, j)
    &&& forall|k: int|
        0 <= k < node.child_ids@.len() ==> (#[trigger] node.child_ids@[k]).0 < parents.len()
            && parents[node.child_ids@[k].0 as int] == Some(j as usize)
    &&& forall|c: int|
        0 <= c < parents.len() && parents[c] == Some(j as usize) ==> node.child_ids@.contains(
            NodeId(c as u32),
        )
    &&& forall|k1: int, k2: int|
        0 <= k1 < k2 < node.child_ids@.len() ==> node.child_ids@[k1].0 < node.child_ids@[k2].0
}

#[verifier::rlimit(40)]
proof fn lemma_tree_from_decls<R: Rule>(
    d: Seq<DeclModel<R>>,
    ns: Seq<Seq<NodeNeeds>>,
    t: DescriptorTree<R>,
    parents: Seq<Option<usize>>,
)
    requires
        decls_wf(d),
        no_dup(d),
        t.nodes@.len() == d.len(),
        t.root_id == Some(NodeId(0)),
        parents.len() == d.len(),
        forall|j: int| 0 <= j < d.len() ==> parents[j] == d[j].parent,
        forall|j: int| 0 <= j < d.len() ==> built_node(d, ns, #[trigger] t.nodes@[j], j, parents),
        forall|c: int| 1 <= c < d.len() ==> #[trigger] indexed_in_parent(t.nodes@, d, c),
    ensures
        t.wf(),
        forall|i: int| 0 <= i < d.len() ==> node_built_from(d, ns, t, i),
{
    let n = d.len();
    assert forall|i: int| 0 <= i < n implies node_built_from(d, ns, t, i) by {
        assert(built_node(d, ns, t.nodes@[i], i, parents));
    }
    assert(t.path_of(0) == d[0].path) by {
        assert(built_node(d, ns, t.nodes@[0], 0, parents));
    }
    assert forall|i: int| #![trigger t.nodes@[i].parent_id] 1 <= i < n implies (t.nodes@[i].parent_id matches Some(p) && p.0 < i) by {
        assert(built_node(d, ns, t.nodes@[i], i, parents));
        assert(d[i].parent matches Some(p) && p < i);
    }
    assert forall|i: int| 1 <= i < n implies t.path_of(i) == t.path_of(t.parent_of(i)).push(
        t.nodes@[i].tag@,
    ) by {
        assert(built_node(d, ns, t.nodes@[i], i, parents));
        assert(d[i].parent matches Some(p) && p < i);
        let p = d[i].parent->0 as int;
        assert(built_node(d, ns, t.nodes@[p], p, parents));
        assert(t.parent_of(i) == p);
    }
    assert forall|i: int, k: int|
        #![trigger t.nodes@[i].child_ids@[k]]
        0 <= i < n && 0 <= k < t.nodes@[i].child_ids@.len() implies {
        let c = t.nodes@[i].child_ids@[k].0 as int;
        &&& c < n
        &&& t.nodes@[c].parent_id == Some(NodeId(i as u32))
    } by {
        assert(built_node(d, ns, t.nodes@[i], i, parents));
        let c = t.nodes@[i].child_ids@[k].0 as int;
        assert(built_node(d, ns, t.nodes@[c], c, parents));
    }
    assert forall|i: int, j: int|
        #![trigger t.nodes@[j].parent_id, t.nodes@[i].child_ids]
        0 <= i < n && 0 <= j < n && t.nodes@[j].parent_id == Some(NodeId(i as u32)) implies t.is_child(
        i,
        j,
    ) by {
        assert(built_node(d, ns, t.nodes@[i], i, parents));
        assert(built_node(d, ns, t.nodes@[j], j, parents));
        if j == 0 {
            assert(d[0].parent is None);
        }
        let p = d[j].parent->0;
        assert(p < j);
        assert(p as u32 == i as u32);
        assert(p == i);
        assert(parents[j] == Some(i as usize));
    }
    assert forall|i: int, j: int|
        #![trigger t.path_of(i), t.path_of(j)]
        0 <= i < n && 0 <= j < n && i != j implies t.path_of(i) != t.path_of(j) by {
        assert(built_node(d, ns, t.nodes@[i], i, parents));
        assert(built_node(d, ns, t.nodes@[j], j, parents));
        if i < j {
            assert(!dup_at(d, j));
        } else {
            assert(!dup_at(d, i));
        }
    }
    assert forall|i: int| 0 <= i < n implies #[trigger] t.indexed(i) by {
        assert(built_node(d, ns, t.nodes@[i], i, parents));
        assert forall|k: int| 0 <= k < t.nodes@[i].child_ids@.len() implies {
            let c = #[trigger] t.nodes@[i].child_ids@[k];
            let h = tag_hash(t.nodes@[c.0 as int].tag@);
            &&& t.nodes@[i].child_tag_index@.contains_key(h)
            &&& t.nodes@[i].child_tag_index@[h]@.contains(c)
        } by {
            let c = t.nodes@[i].child_ids@[k].0 as int;
            assert(parents[c] == Some(i as usize));
            assert(d[0].parent is None);
            assert(c >= 1);
            assert(indexed_in_parent(t.nodes@, d, c));
            assert(NodeId(c as u32) == t.nodes@[i].child_ids@[k]);
        }
    }
}

impl<R: Rule> TreeBuilder<R> {
    /// Validates the declarations and builds the descriptor tree.
    ///
    /// The checks run in this order, each reporting its first offender in
    /// declaration order: a path declared twice, a rule whose `needs` asks
    /// for capture on a streaming node (reported with the name its `name`
    /// returns), a capture node inside a captured ancestor (reported with
    /// its nearest capturing ancestor). Each rule's `needs` is called once;
    /// when all checks pass, node `i` of the tree is declaration `i`, its
    /// needs and summary needs computed from the values those calls returned.
    pub fn build(self) -> (r: Result<DescriptorTree<R>, BuilderError>)
        ensures
            r matches Err(BuilderError::DuplicatePath { path }) ==> exists|i: int|
                0 <= i < self.model().len() && dup_at(self.model(), i) && (forall|i2: int|
                    0 <= i2 < i ==> !dup_at(self.model(), i2)) && path@ == join_path(
                    self.model()[i].path,
                ),
            !no_dup(self.model()) ==> r matches Err(BuilderError::DuplicatePath { .. }),
            r matches Err(BuilderError::IncompatibleAccessMode { node_path, rule_name }) ==> {
                &&& no_dup(self.model())
                &&& exists|ns: Seq<Seq<NodeNeeds>>, i: int, k: int, nm: &str|
                    #![trigger first_conflict(self.model(), ns, i, k), call_ensures(R::name, (&self.model()[i].rules[k],), nm)]
                    {
                        &&& first_conflict(self.model(), ns, i, k)
                        &&& call_ensures(R::name, (&self.model()[i].rules[k],), nm)
                        &&& rule_name@ == nm@
                        &&& node_path@ == join_path(self.model()[i].path)
                    }
            },
            no_dup(self.model()) && (exists|i: int, k: int| always_conflicts_at(self.model(), i, k))
                ==> r matches Err(BuilderError::IncompatibleAccessMode { .. }),
            r matches Err(BuilderError::NestedCapture { inner, outer }) ==> {
                &&& no_dup(self.model())
                &&& exists|ns: Seq<Seq<NodeNeeds>>|
                    needs_returned(self.model(), ns) && needs_complete(self.model(), ns)
                        && no_conflict(self.model(), ns)
                &&& exists|i: int|
                    0 <= i < self.model().len() && nested_at(self.model(), i) && (forall|i2: int|
                        0 <= i2 < i ==> !nested_at(self.model(), i2)) && inner@ == join_path(
                        self.model()[i].path,
                    ) && outer@ == join_path(
                        self.model()[capture_ancestor(self.model(), i)->0].path,
                    )
            },
            no_dup(self.model()) && never_conflicts(self.model()) && !no_nested(self.model())
                ==> r matches Err(BuilderError::NestedCapture { .. }),
            no_dup(self.model()) && !no_nested(self.model()) ==> r is Err,
            !(r matches Err(BuilderError::NoRoot)),
            !(r matches Err(BuilderError::OrphanNode { .. })),
            r is Ok ==> no_dup(self.model()) && no_nested(self.model()),
            no_dup(self.model()) && never_conflicts(self.model()) && no_nested(self.model()) ==> r is Ok,
            r matches Ok(t) ==> {
                &&& t.wf()
                &&& t.nodes@.len() == self.model().len()
                &&& t.capture_memory_limit == self.limit()
                &&& exists|ns: Seq<Seq<NodeNeeds>>|
                    {
                        &&& needs_returned(self.model(), ns)
                        &&& needs_complete(self.model(), ns)
                        &&& no_conflict(self.model(), ns)
                        &&& forall|i: int|
                            0 <= i < self.model().len() ==> node_built_from(self.model(), ns, t, i)
                        &&& forall|i: int, k: int|
                            0 <= i < self.model().len() && 0 <= k < ns[i].len() ==> has_flags(
                                t.nodes@[i].needs.0,
                                #[trigger] ns[i][k].0,
                            )
                    }
            },
    {
        proof {
            use_type_invariant(&self);
        }
        let ghost d = self.model();
        let TreeBuilder { declarations, parent_stack: _, capture_memory_limit } = self;
        let ghost orig = declarations@;
        assert(forall|i: int| 0 <= i < d.len() ==> d[i] == decl_model(#[trigger] orig[i]));
        let n = declarations.len();
        if n == 0 {
            return Err(BuilderError::NoRoot);
        }
        // Duplicate paths: each declaration is compared with the earlier
        // ones whose joined path has the same hash.
        let mut seen: HashMap<u64, Vec<usize>> = HashMap::new();
        let mut i: usize = 0;
        while i < n
            invariant
                n == d.len(),
                declarations@ == orig,
                n == orig.len(),
                d == self.model(),
                forall|i: int| 0 <= i < d.len() ==> d[i] == decl_model(#[trigger] orig[i]),
                i <= n,
                forall|i2: int| 0 <= i2 < i ==> !dup_at(d, i2),
                forall|j: int|
                    0 <= j < i ==> seen@.contains_key(#[trigger] path_hash(d[j].path))
                        && seen@[path_hash(d[j].path)]@.contains(j as usize),
                forall|h: u64, m: int|
                    seen@.contains_key(h) && 0 <= m < seen@[h]@.len() ==> #[trigger] seen@[h]@[m] < i,
            decreases n - i,
        {
            broadcast use vstd::std_specs::hash::group_hash_axioms;

            let path = format_path(declarations[i].full_path.as_slice());
            let h = hash_tag(path.as_str());
            proof {
                assert(d[i as int] == decl_model(orig[i as int]));
                assert(h == path_hash(d[i as int].path));
            }
            let ghost m0 = seen@;
            let removed = seen.remove(&h);
            let mut bucket = match removed {
                Some(b) => b,
                None => Vec::new(),
            };
            proof {
                assert(m0.contains_key(h) ==> bucket@ == m0[h]@);
                assert(!m0.contains_key(h) ==> bucket@.len() == 0);
            }
            let mut k: usize = 0;
            while k < bucket.len()
                invariant
                    n == d.len(),
                    declarations@ == orig,
                    n == orig.len(),
                    d == self.model(),
                    forall|i: int| 0 <= i < d.len() ==> d[i] == decl_model(#[trigger] orig[i]),
                    forall|i2: int| 0 <= i2 < i ==> !dup_at(d, i2),
                    i < n,
                    k <= bucket@.len(),
                    forall|m: int| 0 <= m < bucket@.len() ==> #[trigger] bucket@[m] < i,
                    forall|m: int| 0 <= m < k ==> d[#[trigger] bucket@[m] as int].path != d[i as int].path,
                    path@ == join_path(d[i as int].path),
                decreases bucket.len() - k,
            {
                let j = bucket[k];
                if paths_equal(
                    declarations[j].full_path.as_slice(),
                    declarations[i].full_path.as_slice(),
                ) {
                    proof {
                        assert(d[j as int] == decl_model(orig[j as int]));
                        assert(d[i as int] == decl_model(orig[i as int]));
                        assert(dup_at(d, i as int));
                        assert(!no_dup(d));
                        assert(dup_at(self.model(), i as int));
                        assert(forall|i2: int| 0 <= i2 < i ==> !dup_at(self.model(), i2));
                    }
                    return Err(BuilderError::DuplicatePath { path });
                }
                proof {
                    assert(d[j as int] == decl_model(orig[j as int]));
                    assert(d[i as int] == decl_model(orig[i as int]));
                }
                k = k + 1;
            }
            proof {
                assert forall|j: int| 0 <= j < i implies d[j].path != d[i as int].path by {
                    if d[j].path == d[i as int].path {
                        assert(seen@.contains_key(path_hash(d[j].path)));
                        assert(m0[h]@.contains(j as usize));
                        let w = choose|w: int| 0 <= w < bucket@.len() && bucket@[w] == j as usize;
                        assert(d[bucket@[w] as int].path != d[i as int].path);
                    }
                }
                assert(!dup_at(d, i as int));
            }
            let ghost b0 = bucket@;
            let ghost m1 = seen@;
            bucket.push(i);
            seen.insert(h, bucket);
            proof {
                assert(m1 == m0.remove(h));
                assert forall|j: int| 0 <= j < i + 1 implies seen@.contains_key(#[trigger] path_hash(d[j].path))
                    && seen@[path_hash(d[j].path)]@.contains(j as usize) by {
                    if j == i {
                        assert(seen@[h]@.last() == i);
                    } else if path_hash(d[j].path) == h {
                        let w = choose|w: int| 0 <= w < m0[h]@.len() && m0[h]@[w] == j as usize;
                        assert(seen@[h]@[w] == j as usize);
                    }
                }
                assert forall|h2: u64, m: int| seen@.contains_key(h2) && 0 <= m < seen@[h2]@.len() implies #[trigger] seen@[h2]@[m] < i + 1 by {
                    if h2 != h {
                        assert(m0.contains_key(h2));
                        assert(seen@[h2] == m0[h2]);
                    } else if m < b0.len() {
                        assert(seen@[h2]@[m] == b0[m]);
                    }
                }
            }
            i = i + 1;
        }
        // Rules that need capture on streaming nodes; what each rule's
        // `needs` returns is kept for the needs of its node.

        let mut needs_of: Vec<Vec<NodeNeeds>> = Vec::new();
        let ghost mut ns: Seq<Seq<NodeNeeds>> = Seq::empty();
        let mut i: usize = 0;
        while i < n
            invariant
                n == d.len(),
                declarations@ == orig,
                n == orig.len(),
                d == self.model(),
                forall|i: int| 0 <= i < d.len() ==> d[i] == decl_model(#[trigger] orig[i]),
                no_dup(d),
                i <= n,
                needs_of@.len() == i,
                ns.len() == i,
                forall|i2: int| 0 <= i2 < i ==> #[trigger] needs_of@[i2]@ == ns[i2],
                forall|i2: int| 0 <= i2 < i ==> #[trigger] ns[i2].len() == d[i2].rules.len(),
                needs_returned(d, ns),
                no_conflict(d, ns),
            decreases n - i,
        {
            let mut row: Vec<NodeNeeds> = Vec::new();
            let mut k: usize = 0;
            proof {
                assert(d[i as int] == decl_model(orig[i as int]));
                let ns1 = ns.push(row@);
                assert forall|i2: int, k2: int| !#[trigger] conflict_at(d, ns1, i2, k2) by {
                    if 0 <= i2 < i {
                        assert(ns1[i2] == ns[i2]);
                        assert(!conflict_at(d, ns, i2, k2));
                    }
                }
                assert forall|i2: int, k2: int|
                    0 <= i2 < ns1.len() && 0 <= k2 < ns1[i2].len() implies call_ensures(
                    R::needs,
                    (&d[i2].rules[k2],),
                    #[trigger] ns1[i2][k2],
                ) by {
                    assert(ns1[i2] == ns[i2]);
                }
                assert forall|i2: int| 0 <= i2 < ns1.len() implies #[trigger] ns1[i2].len()
                    <= d[i2].rules.len() by {
                    if i2 < i {
                        assert(ns1[i2] == ns[i2]);
                    }
                }
            }
            while k < declarations[i].rules.len()
                invariant
                    n == d.len(),
                    declarations@ == orig,
                    n == orig.len(),
                    d == self.model(),
                    forall|i: int| 0 <= i < d.len() ==> d[i] == decl_model(#[trigger] orig[i]),
                    no_dup(d),
                    i < n,
                    k <= d[i as int].rules.len(),
                    d[i as int].rules == orig[i as int].rules@,
                    d[i as int].capture == orig[i as int].is_capture,
                    row@.len() == k,
                    ns.len() == i,
                    forall|i2: int| 0 <= i2 < i ==> #[trigger] ns[i2].len() == d[i2].rules.len(),
                    needs_returned(d, ns.push(row@)),
                    no_conflict(d, ns.push(row@)),
                decreases d[i as int].rules.len() - k,
            {
                let rule = &declarations[i].rules[k];
                let nk = rule.needs();
                let ghost ns2 = ns.push(row@.push(nk));
                proof {
                    assert(call_ensures(R::needs, (&d[i as int].rules[k as int],), nk));
                    assert(needs_returned(d, ns2)) by {
                        assert forall|i2: int, k2: int|
                            0 <= i2 < ns2.len() && 0 <= k2 < ns2[i2].len() implies call_ensures(
                            R::needs,
                            (&d[i2].rules[k2],),
                            #[trigger] ns2[i2][k2],
                        ) by {
                            if i2 < i || k2 < k {
                                assert(ns2[i2][k2] == ns.push(row@)[i2][k2]);
                            }
                        }
                        assert forall|i2: int| 0 <= i2 < ns2.len() implies #[trigger] ns2[i2].len()
                            <= d[i2].rules.len() by {
                            if i2 < i {
                                assert(ns2[i2] == ns[i2]);
                            }
                        }
                    }
                }
                if nk.is_capture() && !declarations[i].is_capture {
                    let node_path = format_path(declarations[i].full_path.as_slice());
                    let nm = rule.name();
                    let rule_name = nm.to_owned();
                    proof {
                        assert(node_path@ == join_path(d[i as int].path));
                        assert(conflict_at(d, ns2, i as int, k as int));
                        assert forall|i2: int, k2: int|
                            (i2 < i || (i2 == i && k2 < k)) implies !#[trigger] conflict_at(d, ns2, i2, k2) by {
                            if 0 <= i2 < ns2.len() && 0 <= k2 < ns2[i2].len() {
                                assert(ns2[i2][k2] == ns.push(row@)[i2][k2]);
                                assert(!conflict_at(d, ns.push(row@), i2, k2));
                            }
                        }
                        assert forall|i2: int| 0 <= i2 < i implies #[trigger] ns2[i2].len() == d[i2].rules.len() by {
                            assert(ns2[i2] == ns[i2]);
                        }
                        assert(first_conflict(d, ns2, i as int, k as int));
                        assert(call_ensures(R::name, (&d[i as int].rules[k as int],), nm));
                        assert(!never_conflicts(d)) by {
                            assert(call_ensures(R::needs, (&d[i as int].rules[k as int],), nk));
                        }
                    }
                    return Err(BuilderError::IncompatibleAccessMode { node_path, rule_name });
                }
                proof {
                    assert forall|i2: int, k2: int| !#[trigger] conflict_at(d, ns2, i2, k2) by {
                        if 0 <= i2 < ns2.len() && 0 <= k2 < ns2[i2].len() && !(i2 == i && k2 == k) {
                            assert(ns2[i2][k2] == ns.push(row@)[i2][k2]);
                            assert(!conflict_at(d, ns.push(row@), i2, k2));
                        }
                    }
                }
                row.push(nk);
                proof {
                    assert(ns.push(row@) =~= ns2);
                }
                k = k + 1;
            }
            proof {
                ns = ns.push(row@);
            }
            needs_of.push(row);
            i = i + 1;
        }
        proof {
            assert(needs_complete(d, ns));
            assert forall|i2: int, k2: int| !always_conflicts_at(d, i2, k2) by {
                if 0 <= i2 < d.len() && 0 <= k2 < d[i2].rules.len() && !d[i2].capture {
                    assert(call_ensures(R::needs, (&d[i2].rules[k2],), ns[i2][k2]));
                    assert(!conflict_at(d, ns, i2, k2));
                }
            }
        }
        // Capture nodes inside captured ancestors.

        let mut i: usize = 0;
        while i < n
            invariant
                n == d.len(),
                decls_wf(d),
                declarations@ == orig,
                n == orig.len(),
                d == self.model(),
                forall|i: int| 0 <= i < d.len() ==> d[i] == decl_model(#[trigger] orig[i]),
                no_dup(d),
                needs_returned(d, ns),
                needs_complete(d, ns),
                no_conflict(d, ns),
                forall|i2: int, k2: int| !#[trigger] always_conflicts_at(d, i2, k2),
                i <= n,
                forall|i2: int| 0 <= i2 < i ==> !nested_at(d, i2),
            decreases n - i,
        {
            if declarations[i].is_capture {
                proof {
                    assert(d[i as int] == decl_model(orig[i as int]));
                }
                let mut anc: Option<usize> = declarations[i].parent_index;
                loop
                    invariant_except_break
                        n == d.len(),
                        decls_wf(d),
                        declarations@ == orig,
                        n == orig.len(),
                        d == self.model(),
                        forall|i: int| 0 <= i < d.len() ==> d[i] == decl_model(#[trigger] orig[i]),
                        no_dup(d),
                        needs_returned(d, ns),
                        needs_complete(d, ns),
                        no_conflict(d, ns),
                        forall|i2: int, k2: int| !#[trigger] always_conflicts_at(d, i2, k2),
                        forall|i2: int| 0 <= i2 < i ==> !nested_at(d, i2),
                        i < n,
                        d[i as int].capture,
                        anc matches Some(a) ==> a < i,
                        capture_ancestor(d, i as int) == match anc {
                            Some(a) => if d[a as int].capture {
                                Some(a as int)
                            } else {
                                capture_ancestor(d, a as int)
                            },
                            None => None,
                        },
                    ensures
                        capture_ancestor(d, i as int) is None,
                    decreases
                            match anc {
                                Some(a) => a + 1,
                                None => 0,
                            },
                {
                    match anc {
                        Some(idx) => {
                            if declarations[idx].is_capture {
                                let inner = format_path(declarations[i].full_path.as_slice());
                                let outer = format_path(declarations[idx].full_path.as_slice());
                                proof {
                                    assert(d[i as int] == decl_model(orig[i as int]));
                                    assert(d[idx as int] == decl_model(orig[idx as int]));
                                    assert(d[idx as int].capture);
                                    assert(capture_ancestor(d, i as int) == Some(idx as int));
                                    assert(nested_at(d, i as int));
                                    assert(!no_nested(d));
                                    assert(d == self.model());
                                    assert(no_dup(self.model()));
                                    assert(!no_nested(self.model()));
                                    assert(nested_at(self.model(), i as int));
                                    assert(inner@ == join_path(d[i as int].path));
                                    assert(outer@ == join_path(d[idx as int].path));
                                    assert(outer@ == join_path(
                                        self.model()[capture_ancestor(self.model(), i as int)->0].path,
                                    ));
                                    assert(forall|i2: int| 0 <= i2 < i ==> !nested_at(self.model(), i2));
                                }
                                return Err(BuilderError::NestedCapture { inner, outer });
                            }
                            anc = declarations[idx].parent_index;
                        },
                        None => {
                            break ;
                        },
                    }
                }
            }
            i = i + 1;
        }
        // Needs of every node, then summary needs.

        let mut parents: Vec<Option<usize>> = Vec::new();
        let mut i: usize = 0;
        while i < n
            invariant
                n == d.len(),
                declarations@ == orig,
                n == orig.len(),
                d == self.model(),
                forall|i: int| 0 <= i < d.len() ==> d[i] == decl_model(#[trigger] orig[i]),
                i <= n,
                parents@.len() == i,
                forall|j: int| 0 <= j < i ==> parents@[j] == d[j].parent,
            decreases n - i,
        {
            parents.push(declarations[i].parent_index);
            i = i + 1;
        }
        let mut needs_vec: Vec<NodeNeeds> = Vec::new();
        let mut i: usize = 0;
        while i < n
            invariant
                n == d.len(),
                declarations@ == orig,
                n == orig.len(),
                d == self.model(),
                forall|i: int| 0 <= i < d.len() ==> d[i] == decl_model(#[trigger] orig[i]),
                parents@.len() == n,
                forall|j: int| 0 <= j < n ==> parents@[j] == d[j].parent,
                i <= n,
                needs_vec@.len() == i,
                forall|j: int| 0 <= j < i ==> (#[trigger] needs_vec@[j]).0 == built_needs(d, ns, j),
                needs_returned(d, ns),
                needs_complete(d, ns),
                no_conflict(d, ns),
                forall|i2: int, k2: int| !#[trigger] always_conflicts_at(d, i2, k2),
                needs_of@.len() == n,
                forall|i2: int| 0 <= i2 < n ==> #[trigger] needs_of@[i2]@ == ns[i2],
            decreases n - i,
        {
            let mut acc: u8 = 0;
            let mut k: usize = 0;
            proof {
                assert(needs_of@[i as int]@ == ns[i as int]);
                assert(ns[i as int].len() == d[i as int].rules.len());
            }
            while k < needs_of[i].len()
                invariant
                    n == d.len(),
                    declarations@ == orig,
                    n == orig.len(),
                    d == self.model(),
                    forall|i: int| 0 <= i < d.len() ==> d[i] == decl_model(#[trigger] orig[i]),
                    i < n,
                    k <= ns[i as int].len(),
                    ns[i as int].len() == d[i as int].rules.len(),
                    needs_of@[i as int]@ == ns[i as int],
                    needs_of@.len() == n,
                    acc == rules_needs(ns[i as int].take(k as int)),
                decreases ns[i as int].len() - k,
            {
                let nk = needs_of[i][k];
                proof {
                    let t = ns[i as int].take(k as int + 1);
                    assert(t.drop_last() =~= ns[i as int].take(k as int));
                    assert(t.last() == ns[i as int][k as int]);
                }
                acc = acc | nk.bits();
                k = k + 1;
            }
            proof {
                assert(ns[i as int].take(k as int) =~= ns[i as int]);
            }
            proof {
                assert(d[i as int] == decl_model(orig[i as int]));
            }
            let hc = has_child_exec(&parents, i);
            proof {
                if hc {
                    let w = choose|w: int| 0 <= w < parents@.len() && parents@[w] == Some(i);
                    assert(d[w].parent == Some(i));
                } else {
                    assert forall|w: int| 0 <= w < d.len() implies d[w].parent != Some(i) by {
                        assert(parents@[w] == d[w].parent);
                    }
                }
                assert(hc == has_child(d, i as int));
            }
            let cap_bits: u8 = if declarations[i].is_capture {
                8
            } else {
                0
            };
            let child_bits: u8 = if hc {
                3
            } else {
                0
            };
            needs_vec.push(NodeNeeds(acc | cap_bits | child_bits));
            i = i + 1;
        }
        let mut summary_vec: Vec<NodeNeeds> = Vec::new();
        let mut i: usize = 0;
        while i < n
            invariant
                n == d.len(),
                decls_wf(d),
                parents@.len() == n,
                forall|j: int| 0 <= j < n ==> parents@[j] == d[j].parent,
                needs_vec@.len() == n,
                forall|j: int| 0 <= j < n ==> (#[trigger] needs_vec@[j]).0 == built_needs(d, ns, j),
                i <= n,
                summary_vec@.len() == i,
                forall|j: int|
                    0 <= j < i ==> (#[trigger] summary_vec@[j]).0 == built_summary_needs(d, ns, j),
                needs_returned(d, ns),
                needs_complete(d, ns),
                no_conflict(d, ns),
                forall|i2: int, k2: int| !#[trigger] always_conflicts_at(d, i2, k2),

            decreases n - i,
        {
            let sn = match parents[i] {
                Some(p) => {
                    proof {
                        if i == 0 {
                            assert(d[0].parent is None);
                        }
                    }
                    if needs_vec[p].contains(NodeNeeds::children()) {
                        NodeNeeds::all()
                    } else {
                        NodeNeeds::empty()
                    }
                },
                None => NodeNeeds::empty(),
            };
            summary_vec.push(sn);
            i = i + 1;
        }
        // Move the declarations into nodes, in order.

        let mut declarations = declarations;
        let mut rev: Vec<NodeDeclaration<R>> = Vec::new();
        while declarations.len() > 0
            invariant
                n == orig.len(),
                d == self.model(),
                declarations@ == orig.take(declarations@.len() as int),
                declarations@.len() + rev@.len() == n,
                forall|k: int| 0 <= k < rev@.len() ==> rev@[k] == orig[n - 1 - k],
            decreases declarations.len(),
        {
            let x = declarations.pop().unwrap();
            rev.push(x);
        }
        let mut nodes: Vec<DescriptorNode<R>> = Vec::new();
        let mut i: usize = 0;
        while i < n
            invariant
                n == d.len(),
                n == orig.len(),
                d == self.model(),
                decls_wf(d),
                forall|i: int| 0 <= i < d.len() ==> d[i] == decl_model(#[trigger] orig[i]),
                parents@.len() == n,
                forall|j: int| 0 <= j < n ==> parents@[j] == d[j].parent,
                needs_vec@.len() == n,
                forall|j: int| 0 <= j < n ==> (#[trigger] needs_vec@[j]).0 == built_needs(d, ns, j),
                summary_vec@.len() == n,
                forall|j: int|
                    0 <= j < n ==> (#[trigger] summary_vec@[j]).0 == built_summary_needs(d, ns, j),
                needs_returned(d, ns),
                needs_complete(d, ns),
                no_conflict(d, ns),
                forall|i2: int, k2: int| !#[trigger] always_conflicts_at(d, i2, k2),

                i <= n,
                rev@.len() == n - i,
                forall|k: int| 0 <= k < rev@.len() ==> rev@[k] == orig[n - 1 - k],
                nodes@.len() == i,
                forall|j: int|
                    0 <= j < i ==> built_node(d, ns, #[trigger] nodes@[j], j, parents@),
            decreases n - i,
        {
            let decl = rev.pop().unwrap();
            let NodeDeclaration { tag, full_path, is_capture, rules, parent_index } = decl;
            let access_mode = if is_capture {
                AccessMode::CaptureSubtree
            } else {
                AccessMode::Streaming
            };
            let parent_id = match parent_index {
                Some(p) => Some(NodeId(p as u32)),
                None => None,
            };
            let child_ids = children_of(&parents, i);
            let node = DescriptorNode {
                tag,
                full_path,
                access_mode,
                rules,
                parent_id,
                child_ids,
                child_tag_index: HashMap::new(),
                needs: needs_vec[i],
                summary_needs: summary_vec[i],
            };
            nodes.push(node);
            i = i + 1;
        }
        // Index each node's children by the hash of their tag.
        let mut j: usize = 1;
        while j < n
            invariant
                n == d.len(),
                decls_wf(d),
                nodes@.len() == n,
                parents@.len() == n,
                forall|x: int| 0 <= x < n ==> parents@[x] == d[x].parent,
                forall|x: int| 0 <= x < n ==> built_node(d, ns, #[trigger] nodes@[x], x, parents@),
                1 <= j <= n,
                forall|c: int| 1 <= c < j ==> #[trigger] indexed_in_parent(nodes@, d, c),
                needs_returned(d, ns),
                needs_complete(d, ns),
                no_conflict(d, ns),
                forall|i2: int, k2: int| !#[trigger] always_conflicts_at(d, i2, k2),

            decreases n - j,
        {
            broadcast use vstd::std_specs::hash::group_hash_axioms;

            let p = match parents[j] {
                Some(p) => p,
                None => 0,
            };
            proof {
                assert(d[j as int].parent matches Some(q) && q < j);
                assert(built_node(d, ns, nodes@[j as int], j as int, parents@));
            }
            let h = hash_tag(nodes[j].tag.as_str());
            let ghost before = nodes@;
            let ghost m0 = nodes@[p as int].child_tag_index@;
            let removed = nodes[p].child_tag_index.remove(&h);
            let ghost m1 = nodes@[p as int].child_tag_index@;
            let mut list = match removed {
                Some(l) => l,
                None => Vec::new(),
            };
            let ghost l0 = list@;
            list.push(NodeId(j as u32));
            let ghost l1 = list@;
            nodes[p].child_tag_index.insert(h, list);
            proof {
                assert(m1 == m0.remove(h));
                assert(m0.contains_key(h) ==> l0 == m0[h]@);
                assert(nodes@[p as int].child_tag_index@ == m1.insert(h, list));
                assert(l1 == l0.push(NodeId(j as u32)));
                assert forall|x: int| 0 <= x < n implies built_node(d, ns, #[trigger] nodes@[x], x, parents@) by {
                    assert(built_node(d, ns, before[x], x, parents@));
                }
                assert forall|c: int| 1 <= c < j + 1 implies #[trigger] indexed_in_parent(nodes@, d, c) by {
                    if c < j {
                        assert(indexed_in_parent(before, d, c));
                        assert(built_node(d, ns, before[c], c, parents@));
                        assert(nodes@[c].tag == before[c].tag);
                        let pc = d[c].parent->0 as int;
                        let hc = tag_hash(before[c].tag@);
                        if pc == p && hc == h {
                            assert(l0 == m0[h]@);
                            assert(before[pc].child_tag_index@[hc]@.contains(NodeId(c as u32)));
                            let w = choose|w: int| 0 <= w < l0.len() && l0[w] == NodeId(c as u32);
                            assert(l1[w] == NodeId(c as u32));
                        }
                    } else {
                        assert(nodes@[p as int].child_tag_index@[h]@.contains(NodeId(j as u32))) by {
                            assert(nodes@[p as int].child_tag_index@[h]@.last() == NodeId(j as u32));
                        }
                    }
                }
            }
            j = j + 1;
        }
        let tree = DescriptorTree { nodes, root_id: Some(NodeId(0)), capture_memory_limit };
        proof {
            lemma_tree_from_decls(d, ns, tree, parents@);
            assert forall|i2: int, k2: int|
                0 <= i2 < d.len() && 0 <= k2 < ns[i2].len() implies has_flags(
                tree.nodes@[i2].needs.0,
                #[trigger] ns[i2][k2].0,
            ) by {
                lemma_node_needs_are_the_rules_union(d, ns, tree, i2, 1u8);
            }
            assert(d == self.model());
            assert(no_dup(self.model()));
            assert(no_nested(self.model()));
        }
        Ok(tree)
    }
}

} // verus!
