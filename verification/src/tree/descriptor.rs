use vstd::prelude::*;

use std::collections::HashMap;

use crate::reader::parser::{fnv1a, hash_tag};
use crate::tree::path::{extends_path, paths_equal, segments_view, str_eq, NodeId, PathSegment};

verus! {

/// How a declared element is processed.
#[derive(Clone, Copy, Debug, PartialEq, Eq)]
pub enum AccessMode {
    /// Attributes, text and child summaries are kept on a context stack.
    Streaming,
    /// The whole subtree is captured and materialized before its rules run.
    CaptureSubtree,
}

/// What data a node's rules access, computed at build time.
/// When a flag is absent, the engine skips collecting that data.
#[derive(Clone, Copy, Debug, PartialEq, Eq)]
pub struct NodeNeeds(pub u8);

/// Bit of [`NodeNeeds`] for attributes.
pub open spec fn attrs_bit() -> u8 {
    1u8
}

/// Bit of [`NodeNeeds`] for text.
pub open spec fn text_bit() -> u8 {
    2u8
}

/// Bit of [`NodeNeeds`] for child summaries.
pub open spec fn children_bit() -> u8 {
    4u8
}

/// Bit of [`NodeNeeds`] for subtree capture.
pub open spec fn capture_bit() -> u8 {
    8u8
}

/// Whether `needs` holds every bit of `flag`.
pub open spec fn has_flags(needs: u8, flag: u8) -> bool {
    needs & flag == flag
}

impl NodeNeeds {
    /// No data.
    pub fn empty() -> (r: NodeNeeds)
        ensures
            r.0 == 0,
    {
        NodeNeeds(0)
    }

    /// Attributes, text and child summaries (not capture).
    pub fn all() -> (r: NodeNeeds)
        ensures
            r.0 == 7,
    {
        NodeNeeds(7)
    }

    /// Attributes only.
    pub fn attrs() -> (r: NodeNeeds)
        ensures
            r.0 == attrs_bit(),
    {
        NodeNeeds(1)
    }

    /// Text only.
    pub fn text() -> (r: NodeNeeds)
        ensures
            r.0 == text_bit(),
    {
        NodeNeeds(2)
    }

    /// Child summaries only.
    pub fn children() -> (r: NodeNeeds)
        ensures
            r.0 == children_bit(),
    {
        NodeNeeds(4)
    }

    /// Subtree capture only.
    pub fn capture() -> (r: NodeNeeds)
        ensures
            r.0 == capture_bit(),
    {
        NodeNeeds(8)
    }

    /// Whether every flag of `other` is set in `self`.
    pub fn contains(self, other: NodeNeeds) -> (r: bool)
        ensures
            r == has_flags(self.0, other.0),
    {
        (self.0 & other.0) == other.0
    }

    /// The flags of both.
    pub fn union(self, other: NodeNeeds) -> (r: NodeNeeds)
        ensures
            r.0 == self.0 | other.0,
    {
        NodeNeeds(self.0 | other.0)
    }

    /// Whether the capture flag is set.
    pub fn is_capture(self) -> (r: bool)
        ensures
            r == has_flags(self.0, capture_bit()),
    {
        (self.0 & 8) == 8
    }

    /// The raw flag bits.
    pub fn bits(self) -> (r: u8)
        ensures
            r == self.0,
    {
        self.0
    }
}

/// One declared element of the expected XML structure.
pub struct DescriptorNode<R> {
    pub tag: PathSegment,
    pub full_path: Vec<PathSegment>,
    pub access_mode: AccessMode,
    pub rules: Vec<R>,
    pub parent_id: Option<NodeId>,
    pub child_ids: Vec<NodeId>,
    /// The children by the hash of their tag ([`hash_tag`]): under each
    /// hash, the children whose tag has it.
    pub child_tag_index: HashMap<u64, Vec<NodeId>>,
    pub needs: NodeNeeds,
    /// What ancestors need from this node when it appears as a child summary.
    pub summary_needs: NodeNeeds,
}

/// The hash under which a child with tag `tag` is indexed.
pub open spec fn tag_hash(tag: Seq<char>) -> u64 {
    fnv1a(vstd::utf8::encode_utf8(tag))
}

/// The declared XML structure, one node per declared path.
pub struct DescriptorTree<R> {
    pub nodes: Vec<DescriptorNode<R>>,
    pub root_id: Option<NodeId>,
    pub capture_memory_limit: usize,
}

impl<R> DescriptorTree<R> {
    /// The node with index `i`.
    pub open spec fn node(&self, i: int) -> DescriptorNode<R> {
        self.nodes@[i]
    }

    /// The number of declared nodes.
    pub open spec fn len(&self) -> nat {
        self.nodes@.len()
    }

    /// The path of node `i` as character sequences.
    pub open spec fn path_of(&self, i: int) -> Seq<Seq<char>> {
        segments_view(self.nodes@[i].full_path@)
    }

    /// The index of the parent of node `i`, or -1 for a node without parent.
    pub open spec fn parent_of(&self, i: int) -> int {
        match self.nodes@[i].parent_id {
            Some(p) => p.0 as int,
            None => -1,
        }
    }

    /// Whether node `c` is listed among the children of node `p`.
    pub open spec fn is_child(&self, p: int, c: int) -> bool {
        self.nodes@[p].child_ids@.contains(NodeId(c as u32))
    }

    /// Node `i` indexes each of its children under the hash of its tag.
    pub open spec fn indexed(&self, i: int) -> bool {
        let node = self.nodes@[i];
        forall|k: int|
            0 <= k < node.child_ids@.len() ==> {
                let c = #[trigger] node.child_ids@[k];
                let h = tag_hash(self.nodes@[c.0 as int].tag@);
                &&& node.child_tag_index@.contains_key(h)
                &&& node.child_tag_index@[h]@.contains(c)
            }
    }

    /// Links between nodes are consistent, paths extend their parent's path
    /// by the node's tag, no two nodes share a path, and each node indexes
    /// its children by tag.
    pub open spec fn wf(&self) -> bool {
        let n = self.nodes@.len();
        &&& 1 <= n <= u32::MAX
        &&& self.root_id == Some(NodeId(0))
        &&& self.nodes@[0].parent_id is None
        &&& self.path_of(0) == seq![self.nodes@[0].tag@]
        &&& forall|i: int|
            #![trigger self.nodes@[i].parent_id]
            1 <= i < n ==> (self.nodes@[i].parent_id matches Some(p) && p.0 < i)
        &&& forall|i: int|
            #![trigger self.path_of(i)]
            1 <= i < n ==> self.path_of(i) == self.path_of(self.parent_of(i)).push(
                self.nodes@[i].tag@,
            )
        &&& forall|i: int, k: int|
            #![trigger self.nodes@[i].child_ids@[k]]
            0 <= i < n && 0 <= k < self.nodes@[i].child_ids@.len() ==> {
                let c = self.nodes@[i].child_ids@[k].0 as int;
                &&& c < n
                &&& self.nodes@[c].parent_id == Some(NodeId(i as u32))
            }
        &&& forall|i: int, j: int|
            #![trigger self.nodes@[j].parent_id, self.nodes@[i].child_ids]
            0 <= i < n && 0 <= j < n && self.nodes@[j].parent_id == Some(NodeId(i as u32))
                ==> self.is_child(i, j)
        &&& forall|i: int, j: int|
            #![trigger self.path_of(i), self.path_of(j)]
            0 <= i < n && 0 <= j < n && i != j ==> self.path_of(i) != self.path_of(j)
        &&& forall|i: int| 0 <= i < n ==> #[trigger] self.indexed(i)
    }

    /// Whether node `i` names an earlier node as its parent and extends that
    /// node's path by its own tag.
    fn check_parent_link(&self, i: usize) -> (r: bool)
        requires
            1 <= i < self.nodes@.len(),
        ensures
            r == ((self.nodes@[i as int].parent_id matches Some(p) && p.0 < i) && self.path_of(i as int)
                == self.path_of(self.parent_of(i as int)).push(self.nodes@[i as int].tag@)),
    {
        match self.nodes[i].parent_id {
            Some(p) => {
                if (p.0 as usize) < i {
                    let parent = &self.nodes[p.0 as usize];
                    extends_path(
                        self.nodes[i].full_path.as_slice(),
                        parent.full_path.as_slice(),
                        &self.nodes[i].tag,
                    )
                } else {
                    false
                }
            },
            None => false,
        }
    }

    /// Whether node `p` lists node `c` among its children.
    fn lists_child(&self, p: usize, c: usize) -> (r: bool)
        requires
            p < self.nodes@.len(),
            c <= u32::MAX,
        ensures
            r == self.is_child(p as int, c as int),
    {
        let ids = &self.nodes[p].child_ids;
        let mut k: usize = 0;
        while k < ids.len()
            invariant
                *ids == self.nodes@[p as int].child_ids,
                c <= u32::MAX,
                k <= ids@.len(),
                forall|m: int| 0 <= m < k ==> ids@[m] != NodeId(c as u32),
            decreases ids.len() - k,
        {
            if ids[k].0 as usize == c {
                proof {
                    assert(ids@[k as int] == NodeId(c as u32));
                }
                return true;
            }
            k = k + 1;
        }
        false
    }

    /// Whether every child listed by node `i` exists and names `i` as its parent.
    fn check_child_list(&self, i: usize) -> (r: bool)
        requires
            i < self.nodes@.len() <= u32::MAX,
        ensures
            r == forall|k: int|
                0 <= k < self.nodes@[i as int].child_ids@.len() ==> {
                    let c = (#[trigger] self.nodes@[i as int].child_ids@[k]).0 as int;
                    &&& c < self.nodes@.len()
                    &&& self.nodes@[c].parent_id == Some(NodeId(i as u32))
                },
    {
        let n = self.nodes.len();
        let ids = &self.nodes[i].child_ids;
        let mut k: usize = 0;
        while k < ids.len()
            invariant
                n == self.nodes@.len(),
                i < n <= u32::MAX,
                *ids == self.nodes@[i as int].child_ids,
                k <= ids@.len(),
                forall|m: int|
                    0 <= m < k ==> {
                        let c = (#[trigger] ids@[m]).0 as int;
                        &&& c < n
                        &&& self.nodes@[c].parent_id == Some(NodeId(i as u32))
                    },
            decreases ids.len() - k,
        {
            let c = ids[k].0 as usize;
            if c >= n {
                return false;
            }
            match self.nodes[c].parent_id {
                Some(p) => {
                    if p.0 as usize != i {
                        proof {
                            assert(self.nodes@[c as int].parent_id != Some(NodeId(i as u32)));
                        }
                        return false;
                    }
                },
                None => {
                    return false;
                },
            }
            k = k + 1;
        }
        true
    }

    /// Whether `ids` holds `c`.
    fn holds_id(ids: &Vec<NodeId>, c: NodeId) -> (r: bool)
        ensures
            r == ids@.contains(c),
    {
        let mut k: usize = 0;
        while k < ids.len()
            invariant
                k <= ids@.len(),
                forall|m: int| 0 <= m < k ==> ids@[m] != c,
            decreases ids.len() - k,
        {
            if ids[k].0 == c.0 {
                proof {
                    assert(ids@[k as int] == c);
                }
                return true;
            }
            k = k + 1;
        }
        false
    }

    /// Whether node `i` indexes each of its children under the hash of its tag.
    fn check_index(&self, i: usize) -> (r: bool)
        requires
            i < self.nodes@.len(),
            forall|k: int|
                0 <= k < self.nodes@[i as int].child_ids@.len() ==> (#[trigger] self.nodes@[i as int].child_ids@[k]).0
                    < self.nodes@.len(),
        ensures
            r == self.indexed(i as int),
    {
        broadcast use vstd::std_specs::hash::group_hash_axioms;

        let node = &self.nodes[i];
        let mut k: usize = 0;
        while k < node.child_ids.len()
            invariant
                i < self.nodes@.len(),
                *node == self.nodes@[i as int],
                forall|k: int|
                    0 <= k < node.child_ids@.len() ==> (#[trigger] node.child_ids@[k]).0
                        < self.nodes@.len(),
                k <= node.child_ids@.len(),
                forall|m: int|
                    0 <= m < k ==> {
                        let c = #[trigger] node.child_ids@[m];
                        let h = tag_hash(self.nodes@[c.0 as int].tag@);
                        &&& node.child_tag_index@.contains_key(h)
                        &&& node.child_tag_index@[h]@.contains(c)
                    },
            decreases node.child_ids.len() - k,
        {
            let c = node.child_ids[k];
            let h = hash_tag(self.nodes[c.0 as usize].tag.as_str());
            match node.child_tag_index.get(&h) {
                Some(list) => {
                    if !Self::holds_id(list, c) {
                        return false;
                    }
                },
                None => {
                    return false;
                },
            }
            k = k + 1;
        }
        true
    }

    /// Whether the tree is well formed ([`wf`](Self::wf)): what the engine
    /// requires of a tree that the builder did not make.
    pub fn check_wf(&self) -> (r: bool)
        ensures
            r == self.wf(),
    {
        let n = self.nodes.len();
        if n == 0 || n > 0xffff_ffff {
            return false;
        }
        match self.root_id {
            Some(id) => {
                if id.0 != 0 {
                    return false;
                }
            },
            None => {
                return false;
            },
        }
        if self.nodes[0].parent_id.is_some() {
            return false;
        }
        let root = &self.nodes[0];
        if root.full_path.len() != 1 || !root.full_path[0].same_as(&root.tag) {
            proof {
                if root.full_path@.len() == 1 {
                    assert(self.path_of(0)[0] != seq![root.tag@][0]);
                } else {
                    assert(self.path_of(0).len() != seq![root.tag@].len());
                }
                assert(self.path_of(0) != seq![self.nodes@[0].tag@]);
            }
            return false;
        }
        proof {
            assert(self.path_of(0) =~= seq![root.tag@]);
        }
        let mut i: usize = 1;
        while i < n
            invariant
                n == self.nodes@.len(),
                1 <= i <= n,
                forall|i2: int|
                    1 <= i2 < i ==> (#[trigger] self.nodes@[i2].parent_id matches Some(p) && p.0
                        < i2) && self.path_of(i2) == self.path_of(self.parent_of(i2)).push(
                        self.nodes@[i2].tag@,
                    ),
            decreases n - i,
        {
            if !self.check_parent_link(i) {
                return false;
            }
            i = i + 1;
        }
        let mut i: usize = 0;
        while i < n
            invariant
                n == self.nodes@.len() <= u32::MAX,
                i <= n,
                forall|i2: int, k: int|
                    0 <= i2 < i && 0 <= k < self.nodes@[i2].child_ids@.len() ==> {
                        let c = (#[trigger] self.nodes@[i2].child_ids@[k]).0 as int;
                        &&& c < n
                        &&& self.nodes@[c].parent_id == Some(NodeId(i2 as u32))
                    },
            decreases n - i,
        {
            if !self.check_child_list(i) {
                return false;
            }
            i = i + 1;
        }
        let mut j: usize = 1;
        while j < n
            invariant
                n == self.nodes@.len() <= u32::MAX,
                1 <= j <= n,
                self.nodes@[0].parent_id is None,
                forall|i2: int|
                    1 <= i2 < n ==> (#[trigger] self.nodes@[i2].parent_id matches Some(p) && p.0
                        < i2),
                forall|i2: int, j2: int|
                    0 <= i2 < n && 0 <= j2 < j && self.nodes@[j2].parent_id == Some(
                        NodeId(i2 as u32),
                    ) ==> #[trigger] self.is_child(i2, j2),
            decreases n - j,
        {
            let p = match self.nodes[j].parent_id {
                Some(p) => p.0 as usize,
                None => 0,
            };
            if !self.lists_child(p, j) {
                return false;
            }
            proof {
                assert forall|i2: int| 0 <= i2 < n && self.nodes@[j as int].parent_id == Some(
                    NodeId(i2 as u32),
                ) implies #[trigger] self.is_child(i2, j as int) by {
                    assert(i2 == p);
                }
            }
            j = j + 1;
        }
        let mut i: usize = 0;
        while i < n
            invariant
                n == self.nodes@.len() <= u32::MAX,
                i <= n,
                forall|i2: int, j2: int|
                    0 <= i2 < i && 0 <= j2 < n && i2 != j2 ==> #[trigger] self.path_of(i2)
                        != #[trigger] self.path_of(j2),
            decreases n - i,
        {
            let mut j: usize = i + 1;
            while j < n
                invariant
                    n == self.nodes@.len() <= u32::MAX,
                    i < j <= n,
                    forall|i2: int, j2: int|
                        0 <= i2 < i && 0 <= j2 < n && i2 != j2 ==> #[trigger] self.path_of(i2)
                            != #[trigger] self.path_of(j2),
                    forall|j2: int| i < j2 < j ==> self.path_of(i as int) != #[trigger] self.path_of(j2),
                decreases n - j,
            {
                if paths_equal(self.nodes[i].full_path.as_slice(), self.nodes[j].full_path.as_slice()) {
                    proof {
                        assert(self.path_of(i as int) == self.path_of(j as int));
                    }
                    return false;
                }
                j = j + 1;
            }
            proof {
                assert forall|i2: int, j2: int|
                    0 <= i2 < i + 1 && 0 <= j2 < n && i2 != j2 implies #[trigger] self.path_of(i2)
                        != #[trigger] self.path_of(j2) by {
                    if i2 == i && j2 < i {
                        assert(self.path_of(j2) != self.path_of(i2));
                    }
                }
            }
            i = i + 1;
        }
        let mut i: usize = 0;
        while i < n
            invariant
                n == self.nodes@.len() <= u32::MAX,
                i <= n,
                forall|i2: int, k: int|
                    0 <= i2 < n && 0 <= k < self.nodes@[i2].child_ids@.len() ==> {
                        let c = (#[trigger] self.nodes@[i2].child_ids@[k]).0 as int;
                        &&& c < n
                        &&& self.nodes@[c].parent_id == Some(NodeId(i2 as u32))
                    },
                forall|i2: int| 0 <= i2 < i ==> #[trigger] self.indexed(i2),
            decreases n - i,
        {
            if !self.check_index(i) {
                return false;
            }
            i = i + 1;
        }
        true
    }

    /// Every node has at most 64 rules, so a rule outcome fits in a bit set.
    pub open spec fn rules_fit(&self) -> bool {
        forall|i: int| 0 <= i < self.nodes@.len() ==> #[trigger] self.nodes@[i].rules@.len() <= 64
    }

    /// The root node, when the tree has one.
    pub fn root(&self) -> (r: Option<&DescriptorNode<R>>)
        requires
            self.root_id matches Some(id) ==> id.0 < self.nodes@.len(),
        ensures
            r == match self.root_id {
                Some(id) => Some(&self.nodes@[id.0 as int]),
                None => None,
            },
    {
        match self.root_id {
            Some(id) => Some(&self.nodes[id.0 as usize]),
            None => None,
        }
    }

    /// The id of the root node.
    pub fn root_id(&self) -> (r: Option<NodeId>)
        ensures
            r == self.root_id,
    {
        self.root_id
    }

    /// The node with the given id.
    pub fn get(&self, id: NodeId) -> (r: &DescriptorNode<R>)
        requires
            id.0 < self.nodes@.len(),
        ensures
            *r == self.nodes@[id.0 as int],
    {
        &self.nodes[id.0 as usize]
    }

    /// The child of `parent_id` declared with tag `tag`, found through the
    /// parent's index of its children by tag.
    pub fn child_of(&self, parent_id: NodeId, tag: &str) -> (r: Option<NodeId>)
        requires
            self.wf(),
            parent_id.0 < self.nodes@.len(),
        ensures
            r matches Some(c) ==> {
                &&& self.is_child(parent_id.0 as int, c.0 as int)
                &&& (c.0 as int) < self.nodes@.len()
                &&& self.nodes@[c.0 as int].tag@ == tag@
            },
            r is None ==> forall|c: int|
                0 <= c < self.nodes@.len() && self.nodes@[c].parent_id == Some(parent_id)
                    ==> self.nodes@[c].tag@ != tag@,
    {
        broadcast use vstd::std_specs::hash::group_hash_axioms;

        let n = self.nodes.len();
        let p = parent_id.0 as usize;
        let h = hash_tag(tag);
        let parent = &self.nodes[p];
        proof {
            assert(self.indexed(p as int));
        }
        match parent.child_tag_index.get(&h) {
            None => {
                proof {
                    assert forall|c: int|
                        0 <= c < n && self.nodes@[c].parent_id == Some(parent_id)
                            implies self.nodes@[c].tag@ != tag@ by {
                        assert(self.is_child(p as int, c));
                        let k = choose|k: int|
                            0 <= k < parent.child_ids@.len() && parent.child_ids@[k] == NodeId(
                                c as u32,
                            );
                        assert(parent.child_ids@[k] == NodeId(c as u32));
                    }
                }
                None
            },
            Some(list) => {
                let mut k: usize = 0;
                while k < list.len()
                    invariant
                        self.wf(),
                        n == self.nodes@.len(),
                        p == parent_id.0,
                        p < n,
                        k <= list@.len(),
                        *parent == self.nodes@[p as int],
                        parent.child_tag_index@.contains_key(h),
                        *list == parent.child_tag_index@[h],
                        h == tag_hash(tag@),
                        forall|m: int|
                            0 <= m < k ==> !({
                                let c = (#[trigger] list@[m]).0 as int;
                                c < n && self.nodes@[c].parent_id == Some(parent_id)
                                    && self.nodes@[c].tag@ == tag@
                            }),
                    decreases list.len() - k,
                {
                    let c = list[k];
                    let ci = c.0 as usize;
                    if ci < n {
                        let is_child_here = match self.nodes[ci].parent_id {
                            Some(q) => q.0 == parent_id.0,
                            None => false,
                        };
                        if is_child_here && str_eq(self.nodes[ci].tag.as_str(), tag) {
                            proof {
                                assert(self.nodes@[ci as int].parent_id == Some(parent_id));
                                assert(self.is_child(p as int, ci as int));
                            }
                            return Some(c);
                        }
                    }
                    k = k + 1;
                }
                proof {
                    assert forall|c: int|
                        0 <= c < n && self.nodes@[c].parent_id == Some(parent_id)
                            implies self.nodes@[c].tag@ != tag@ by {
                        if self.nodes@[c].tag@ == tag@ {
                            assert(self.is_child(p as int, c));
                            let k2 = choose|k2: int|
                                0 <= k2 < parent.child_ids@.len() && parent.child_ids@[k2]
                                    == NodeId(c as u32);
                            assert(parent.child_ids@[k2] == NodeId(c as u32));
                            assert(list@.contains(NodeId(c as u32)));
                            let m = choose|m: int| 0 <= m < list@.len() && list@[m] == NodeId(c as u32);
                            assert(list@[m].0 as int == c);
                        }
                    }
                }
                None
            },
        }
    }
}

} // verus!
