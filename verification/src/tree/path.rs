use vstd::prelude::*;

verus! {

broadcast use vstd::utf8::encode_utf8_decode_utf8;

/// One element name along a path from the document root.
#[derive(Clone, Debug, PartialEq, Eq, PartialOrd, Ord, Hash)]
pub struct PathSegment(pub String);

impl View for PathSegment {
    type V = Seq<char>;

    open spec fn view(&self) -> Seq<char> {
        self.0@
    }
}

/// The character sequences of a list of path segments.
pub open spec fn segments_view(segments: Seq<PathSegment>) -> Seq<Seq<char>> {
    segments.map_values(|s: PathSegment| s@)
}

/// The segments joined by `/`.
pub open spec fn join_path(parts: Seq<Seq<char>>) -> Seq<char>
    decreases parts.len(),
{
    if parts.len() == 0 {
        Seq::empty()
    } else if parts.len() == 1 {
        parts[0]
    } else {
        join_path(parts.drop_last()) + seq!['/'] + parts.last()
    }
}

/// Equality of two string slices, decided on their UTF-8 bytes.
pub fn str_eq(a: &str, b: &str) -> (r: bool)
    ensures
        r == (a@ == b@),
{
    let ab = a.as_bytes();
    let bb = b.as_bytes();
    if ab.len() != bb.len() {
        return false;
    }
    let n = ab.len();
    let mut i: usize = 0;
    while i < n
        invariant
            n == ab@.len(),
            n == bb@.len(),
            ab@ == vstd::utf8::encode_utf8(a@),
            bb@ == vstd::utf8::encode_utf8(b@),
            i <= n,
            forall|j: int| 0 <= j < i ==> ab@[j] == bb@[j],
        decreases n - i,
    {
        if ab[i] != bb[i] {
            return false;
        }
        i = i + 1;
    }
    assert(ab@ =~= bb@);
    proof {
        assert(vstd::utf8::decode_utf8(vstd::utf8::encode_utf8(a@)) == a@);
        assert(vstd::utf8::decode_utf8(vstd::utf8::encode_utf8(b@)) == b@);
    }
    true
}

impl PathSegment {
    /// A segment holding a copy of `s`.
    pub fn new(s: &str) -> (r: PathSegment)
        ensures
            r@ == s@,
    {
        PathSegment(s.to_owned())
    }

    /// The segment's text.
    pub fn as_str(&self) -> (r: &str)
        ensures
            r@ == self@,
    {
        self.0.as_str()
    }

    /// A copy of this segment.
    pub fn duplicate(&self) -> (r: PathSegment)
        ensures
            r@ == self@,
    {
        PathSegment(self.0.clone())
    }

    /// Whether two segments hold the same text.
    pub fn same_as(&self, other: &PathSegment) -> (r: bool)
        ensures
            r == (self@ == other@),
    {
        str_eq(self.0.as_str(), other.0.as_str())
    }
}

/// Whether two paths hold the same segments.
pub fn paths_equal(a: &[PathSegment], b: &[PathSegment]) -> (r: bool)
    ensures
        r == (segments_view(a@) == segments_view(b@)),
{
    if a.len() != b.len() {
        proof {
            assert(segments_view(a@).len() != segments_view(b@).len());
        }
        return false;
    }
    let mut i: usize = 0;
    while i < a.len()
        invariant
            a@.len() == b@.len(),
            i <= a@.len(),
            forall|j: int| 0 <= j < i ==> a@[j]@ == b@[j]@,
        decreases a.len() - i,
    {
        if !a[i].same_as(&b[i]) {
            proof {
                assert(segments_view(a@)[i as int] != segments_view(b@)[i as int]);
            }
            return false;
        }
        i = i + 1;
    }
    assert(segments_view(a@) =~= segments_view(b@));
    true
}

/// A copy of a path.
pub fn copy_path(p: &[PathSegment]) -> (r: Vec<PathSegment>)
    ensures
        segments_view(r@) == segments_view(p@),
{
    let mut r: Vec<PathSegment> = Vec::new();
    let mut i: usize = 0;
    while i < p.len()
        invariant
            i <= p@.len(),
            r@.len() == i,
            forall|j: int| 0 <= j < i ==> r@[j]@ == p@[j]@,
        decreases p.len() - i,
    {
        r.push(p[i].duplicate());
        i = i + 1;
    }
    assert(segments_view(r@) =~= segments_view(p@));
    r
}

/// Whether `child` is `parent` followed by the segment `tag`.
pub fn extends_path(child: &[PathSegment], parent: &[PathSegment], tag: &PathSegment) -> (r: bool)
    ensures
        r == (segments_view(child@) == segments_view(parent@).push(tag@)),
{
    if child.len() == 0 || child.len() - 1 != parent.len() {
        proof {
            assert(segments_view(child@).len() != segments_view(parent@).push(tag@).len());
        }
        return false;
    }
    let mut i: usize = 0;
    while i < parent.len()
        invariant
            child@.len() == parent@.len() + 1,
            i <= parent@.len(),
            forall|j: int| 0 <= j < i ==> child@[j]@ == parent@[j]@,
        decreases parent.len() - i,
    {
        if !child[i].same_as(&parent[i]) {
            proof {
                assert(segments_view(child@)[i as int] != segments_view(parent@).push(tag@)[i as int]);
            }
            return false;
        }
        i = i + 1;
    }
    let last = parent.len();
    if !child[last].same_as(tag) {
        proof {
            assert(segments_view(child@)[last as int] != segments_view(parent@).push(tag@)[last as int]);
        }
        return false;
    }
    assert(segments_view(child@) =~= segments_view(parent@).push(tag@));
    true
}

/// Index of a node in a descriptor tree.
#[derive(Clone, Copy, PartialEq, Eq, Hash, Debug)]
pub struct NodeId(pub u32);

impl NodeId {
    /// The position of the node in its tree.
    pub fn index(&self) -> (r: usize)
        ensures
            r == self.0,
    {
        self.0 as usize
    }
}

/// The segments of a path joined by `/` (no leading separator).
pub fn format_path(segments: &[PathSegment]) -> (r: String)
    ensures
        r@ == join_path(segments_view(segments@)),
{
    let mut out = String::new();
    let mut i: usize = 0;
    while i < segments.len()
        invariant
            i <= segments@.len(),
            out@ == join_path(segments_view(segments@.take(i as int))),
        decreases segments.len() - i,
    {
        proof {
            let parts = segments_view(segments@.take(i as int + 1));
            assert(parts.drop_last() =~= segments_view(segments@.take(i as int)));
            assert(parts.last() == segments@[i as int]@);
        }
        if i > 0 {
            out.append("/");
            proof { reveal_strlit("/"); }
        }
        out.append(segments[i].as_str());
        i = i + 1;
    }
    assert(segments@.take(segments@.len() as int) =~= segments@);
    out
}

} // verus!
