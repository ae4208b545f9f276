use vstd::prelude::*;

use smallvec::SmallVec;

use crate::tree::descriptor::tag_hash;
use crate::tree::path::str_eq;

verus! {

/// Per-parent counters of the children seen so far, one `(tag hash, tag,
/// count)` entry per tag, held inline for up to eight tags. The hash makes
/// most comparisons cheap; the tag tells apart tags whose hashes collide.
#[verifier::external_body]
pub struct SiblingCounters {
    inner: SmallVec<[(u64, String, u32); 8]>,
}

/// The entries a [`SiblingCounters`] holds, in insertion order, each tag by
/// its characters.
pub uninterp spec fn sibling_entries(c: SiblingCounters) -> Seq<(u64, Seq<char>, u32)>;

impl SiblingCounters {
    /// An empty set of counters (`SmallVec::new`).
    #[verifier::external_body]
    pub(crate) fn new() -> (r: SiblingCounters)
        ensures
            sibling_entries(r) == Seq::<(u64, Seq<char>, u32)>::empty(),
    {
        SiblingCounters { inner: SmallVec::new() }
    }

    /// The number of entries (`SmallVec::len`).
    #[verifier::external_body]
    pub(crate) fn len(&self) -> (r: usize)
        ensures
            r == sibling_entries(*self).len(),
    {
        self.inner.len()
    }

    /// Entry `i` (indexing a `SmallVec`), its tag borrowed.
    #[verifier::external_body]
    pub(crate) fn entry(&self, i: usize) -> (r: (u64, &str, u32))
        requires
            i < sibling_entries(*self).len(),
        ensures
            r.0 == sibling_entries(*self)[i as int].0,
            r.1@ == sibling_entries(*self)[i as int].1,
            r.2 == sibling_entries(*self)[i as int].2,
    {
        let e = &self.inner[i];
        (e.0, e.1.as_str(), e.2)
    }

    /// Replaces the count of entry `i`, keeping its hash and tag (mutable
    /// indexing of a `SmallVec`).
    #[verifier::external_body]
    pub(crate) fn set_count(&mut self, i: usize, count: u32)
        requires
            i < sibling_entries(*old(self)).len(),
        ensures
            sibling_entries(*final(self)) == sibling_entries(*old(self)).update(
                i as int,
                (sibling_entries(*old(self))[i as int].0, sibling_entries(*old(self))[i as int].1, count),
            ),
    {
        self.inner[i].2 = count;
    }

    /// Appends an entry (`SmallVec::push`). As with `Vec::push`, running out
    /// of memory is not modeled.
    #[verifier::external_body]
    pub(crate) fn push(&mut self, entry: (u64, String, u32))
        ensures
            sibling_entries(*final(self)) == sibling_entries(*old(self)).push(
                (entry.0, entry.1@, entry.2),
            ),
    {
        self.inner.push(entry);
    }

    /// Removes every entry (`SmallVec::clear`).
    #[verifier::external_body]
    pub(crate) fn clear(&mut self)
        ensures
            sibling_entries(*final(self)) == Seq::<(u64, Seq<char>, u32)>::empty(),
    {
        self.inner.clear();
    }
}

/// Entry `e` counts the children with tag `tag`: it holds that tag and its hash.
pub open spec fn counts_tag(e: (u64, Seq<char>, u32), tag: Seq<char>) -> bool {
    e.0 == tag_hash(tag) && e.1 == tag
}

/// The index of the first entry of `entries` that counts tag `tag`.
pub open spec fn first_for_tag(entries: Seq<(u64, Seq<char>, u32)>, tag: Seq<char>) -> Option<int>
    decreases entries.len(),
{
    if entries.len() == 0 {
        None
    } else {
        match first_for_tag(entries.drop_last(), tag) {
            Some(i) => Some(i),
            None => if counts_tag(entries.last(), tag) {
                Some(entries.len() - 1)
            } else {
                None
            },
        }
    }
}

/// The number of children with tag `tag` seen so far.
pub open spec fn count_for(entries: Seq<(u64, Seq<char>, u32)>, tag: Seq<char>) -> u32 {
    match first_for_tag(entries, tag) {
        Some(i) => entries[i].2,
        None => 0,
    }
}

/// `c + 1`, wrapping around at `u32::MAX` (a machine limit of the count).
pub open spec fn next_count(c: u32) -> u32 {
    if c == u32::MAX {
        0
    } else {
        (c + 1) as u32
    }
}

/// The entries after one more child with tag `tag`.
pub open spec fn bump(entries: Seq<(u64, Seq<char>, u32)>, tag: Seq<char>) -> Seq<(u64, Seq<char>, u32)> {
    match first_for_tag(entries, tag) {
        Some(i) => entries.update(i, (tag_hash(tag), tag, next_count(entries[i].2))),
        None => entries.push((tag_hash(tag), tag, 1)),
    }
}

proof fn lemma_first_for_tag_bounds(entries: Seq<(u64, Seq<char>, u32)>, tag: Seq<char>)
    ensures
        first_for_tag(entries, tag) matches Some(i) ==> 0 <= i < entries.len() && counts_tag(
            entries[i],
            tag,
        ),
        first_for_tag(entries, tag) matches Some(i) ==> forall|j: int|
            0 <= j < i ==> !counts_tag(entries[j], tag),
        first_for_tag(entries, tag) is None ==> forall|j: int|
            0 <= j < entries.len() ==> !counts_tag(entries[j], tag),
    decreases entries.len(),
{
    if entries.len() > 0 {
        let d = entries.drop_last();
        lemma_first_for_tag_bounds(d, tag);
        assert forall|j: int| 0 <= j < d.len() implies #[trigger] entries[j] == d[j] by {}
    }
}

proof fn lemma_first_for_tag_at(entries: Seq<(u64, Seq<char>, u32)>, tag: Seq<char>, i: int)
    requires
        0 <= i < entries.len(),
        counts_tag(entries[i], tag),
        forall|j: int| 0 <= j < i ==> !counts_tag(entries[j], tag),
    ensures
        first_for_tag(entries, tag) == Some(i),
    decreases entries.len(),
{
    lemma_first_for_tag_bounds(entries, tag);
    if i < entries.len() - 1 {
        lemma_first_for_tag_at(entries.drop_last(), tag, i);
    } else {
        lemma_first_for_tag_bounds(entries.drop_last(), tag);
    }
}

proof fn lemma_first_for_tag_none(entries: Seq<(u64, Seq<char>, u32)>, tag: Seq<char>)
    requires
        forall|j: int| 0 <= j < entries.len() ==> !counts_tag(entries[j], tag),
    ensures
        first_for_tag(entries, tag) is None,
{
    lemma_first_for_tag_bounds(entries, tag);
}

/// Gives the sibling index of a child with tag `tag` (whose hash is `hash`)
/// and counts it: returns how many children with that tag came before it.
/// An entry is taken for the tag only when both its hash and its tag match.
pub(crate) fn sibling_counter_get_or_insert(counters: &mut SiblingCounters, tag: &str, hash: u64) -> (r:
    u32)
    requires
        hash == tag_hash(tag@),
    ensures
        r == count_for(sibling_entries(*old(counters)), tag@),
        sibling_entries(*final(counters)) == bump(sibling_entries(*old(counters)), tag@),
{
    let ghost e = sibling_entries(*counters);
    let n = counters.len();
    let mut i: usize = 0;
    while i < n
        invariant
            n == e.len(),
            e == sibling_entries(*counters),
            e == sibling_entries(*old(counters)),
            hash == tag_hash(tag@),
            i <= n,
            forall|j: int| 0 <= j < i ==> !counts_tag(e[j], tag@),
        decreases n - i,
    {
        let (h, t, c) = counters.entry(i);
        if h == hash && str_eq(t, tag) {
            let next: u32 = if c == u32::MAX {
                0
            } else {
                c + 1
            };
            counters.set_count(i, next);
            proof {
                lemma_first_for_tag_at(e, tag@, i as int);
            }
            return c;
        }
        i = i + 1;
    }
    proof {
        lemma_first_for_tag_none(e, tag@);
    }
    counters.push((hash, tag.to_owned(), 1));
    0
}

/// Counting a child advances the count of its own tag by one and leaves the
/// count of every other tag unchanged, whatever their hashes: siblings with
/// one tag get the indices 0, 1, 2, ... in document order.
pub proof fn lemma_bump_counts(entries: Seq<(u64, Seq<char>, u32)>, tag: Seq<char>, other: Seq<char>)
    ensures
        count_for(bump(entries, tag), tag) == next_count(count_for(entries, tag)),
        other != tag ==> count_for(bump(entries, tag), other) == count_for(entries, other),
{
    lemma_first_for_tag_bounds(entries, tag);
    lemma_first_for_tag_bounds(entries, other);
    let b = bump(entries, tag);
    match first_for_tag(entries, tag) {
        Some(i) => {
            lemma_first_for_tag_at(b, tag, i);
            if other != tag {
                match first_for_tag(entries, other) {
                    Some(j) => {
                        lemma_first_for_tag_at(b, other, j);
                    },
                    None => {
                        lemma_first_for_tag_none(b, other);
                    },
                }
            }
        },
        None => {
            lemma_first_for_tag_at(b, tag, entries.len() as int);
            if other != tag {
                match first_for_tag(entries, other) {
                    Some(j) => {
                        lemma_first_for_tag_at(b, other, j);
                    },
                    None => {
                        lemma_first_for_tag_none(b, other);
                    },
                }
            }
        },
    }
}

} // verus!
