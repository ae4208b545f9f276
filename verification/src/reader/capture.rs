use vstd::prelude::*;

use crate::error::ReaderError;
use crate::view::SubtreeNode;

verus! {

/// The length in bytes that `str::len` reports for a string with characters `s`.
pub open spec fn byte_len(s: Seq<char>) -> nat {
    (vstd::utf8::encode_utf8(s).len() as usize) as nat
}

/// Bytes charged for the attributes of a captured element: both strings
/// and a fixed 64 bytes per attribute.
pub open spec fn attrs_cost(attrs: Seq<(String, String)>) -> nat
    decreases attrs.len(),
{
    if attrs.len() == 0 {
        0
    } else {
        attrs_cost(attrs.drop_last()) + byte_len(attrs.last().0@) + byte_len(attrs.last().1@) + 64
    }
}

/// Bytes charged for one captured element: the node itself, its tag and its attributes.
pub open spec fn element_cost(tag: Seq<char>, attrs: Seq<(String, String)>) -> nat {
    vstd::layout::size_of::<SubtreeNode>() + byte_len(tag) + attrs_cost(attrs)
}

/// `n`, or `usize::MAX` when `n` is larger: the bytes charged are counted
/// this way, so a charge past the largest count is still over any limit.
pub open spec fn saturated(n: nat) -> nat {
    if n <= usize::MAX {
        n
    } else {
        usize::MAX as nat
    }
}

/// Accumulates the events of a captured subtree into owned nodes, charging
/// each element and each text run against a memory limit.
///
/// The open elements are kept on a stack, outermost first; closing an element
/// appends it to the children of the one below it. The outermost element
/// stays on the stack once closed and is what `finalize` returns.
pub struct CaptureBuilder {
    stack: Vec<SubtreeNode>,
    memory_usage: usize,
    memory_limit: usize,
    path_for_error: String,
}

impl CaptureBuilder {
    /// The elements on the stack, outermost first.
    pub closed spec fn open_nodes(&self) -> Seq<SubtreeNode> {
        self.stack@
    }

    /// The bytes charged so far.
    pub closed spec fn usage(&self) -> nat {
        self.memory_usage as nat
    }

    /// The memory limit in bytes.
    pub closed spec fn limit(&self) -> usize {
        self.memory_limit
    }

    /// The path reported when the limit is exceeded.
    pub closed spec fn error_path(&self) -> Seq<char> {
        self.path_for_error@
    }

    /// An empty builder with the given limit, reporting `path_for_error` on overflow.
    pub fn new(limit: usize, path_for_error: String) -> (r: CaptureBuilder)
        ensures
            r.open_nodes().len() == 0,
            r.usage() == 0,
            r.limit() == limit,
            r.error_path() == path_for_error@,
    {
        CaptureBuilder { stack: Vec::new(), memory_usage: 0, memory_limit: limit, path_for_error }
    }

    fn overflow_error(&self) -> (r: ReaderError)
        ensures
            r matches ReaderError::CaptureOverflow { path, limit } && path@ == self.error_path()
                && limit == self.limit(),
    {
        ReaderError::CaptureOverflow { path: self.path_for_error.clone(), limit: self.memory_limit }
    }

    /// Fails with `CaptureOverflow` exactly when the bytes charged exceed the limit.
    fn check_limit(&self) -> (r: Result<(), ReaderError>)
        ensures
            r is Ok <==> self.usage() <= self.limit(),
            r matches Err(e) ==> e matches ReaderError::CaptureOverflow { path, limit } && path@
                == self.error_path() && limit == self.limit(),
    {
        if self.memory_usage > self.memory_limit {
            Err(self.overflow_error())
        } else {
            Ok(())
        }
    }

    /// Opens an element with tag `tag` and attributes `attrs`.
    ///
    /// Charges `element_cost(tag, attrs)`; when the total then exceeds the
    /// limit the element is not opened and `CaptureOverflow` is returned.
    pub fn start_element(&mut self, tag: &str, attrs: Vec<(String, String)>) -> (r: Result<
        (),
        ReaderError,
    >)
        ensures
            r is Ok <==> old(self).usage() + element_cost(tag@, attrs@) <= old(self).limit(),
            r matches Err(e) ==> e matches ReaderError::CaptureOverflow { path, limit } && path@
                == old(self).error_path() && limit == old(self).limit(),
            r is Err ==> final(self).open_nodes() == old(self).open_nodes(),
            r is Err ==> final(self).usage() == saturated(
                old(self).usage() + element_cost(tag@, attrs@),
            ),
            r is Ok ==> final(self).usage() == old(self).usage() + element_cost(tag@, attrs@),
            r is Ok ==> final(self).open_nodes().len() == old(self).open_nodes().len() + 1,
            r is Ok ==> final(self).open_nodes().drop_last() == old(self).open_nodes(),
            r is Ok ==> final(self).open_nodes().last().tag@ == tag@,
            r is Ok ==> final(self).open_nodes().last().attrs == attrs,
            r is Ok ==> final(self).open_nodes().last().text@ == Seq::<char>::empty(),
            r is Ok ==> final(self).open_nodes().last().children@ == Seq::<SubtreeNode>::empty(),
            final(self).limit() == old(self).limit(),
            final(self).error_path() == old(self).error_path(),
    {
        let ghost cost = element_cost(tag@, attrs@);
        let ghost start = self.memory_usage as nat;
        // Sum the charges with checked additions: an overflow means the total
        // is beyond any limit.
        let mut total: usize = self.memory_usage;
        let mut overflow = false;
        match total.checked_add(core::mem::size_of::<SubtreeNode>()) {
            Some(t) => total = t,
            None => overflow = true,
        }
        if !overflow {
            match total.checked_add(tag.len()) {
                Some(t) => total = t,
                None => overflow = true,
            }
        }
        let mut i: usize = 0;
        proof {
            assert(attrs@.take(0) =~= Seq::<(String, String)>::empty());
        }
        while !overflow && i < attrs.len()
            invariant
                i <= attrs@.len(),
                !overflow ==> total == start + vstd::layout::size_of::<SubtreeNode>() + byte_len(
                    tag@,
                ) + attrs_cost(attrs@.take(i as int)),
                overflow ==> start + cost > usize::MAX,
                cost == element_cost(tag@, attrs@),
            decreases attrs.len() - i,
        {
            proof {
                lemma_attrs_cost_prefix(attrs@, i as int + 1);
                let t = attrs@.take(i as int + 1);
                assert(t.drop_last() =~= attrs@.take(i as int));
                assert(t.last() == attrs@[i as int]);
            }
            let (k, v) = (&attrs[i].0, &attrs[i].1);
            match total.checked_add(k.as_str().len()) {
                Some(t) => total = t,
                None => overflow = true,
            }
            if !overflow {
                match total.checked_add(v.as_str().len()) {
                    Some(t) => total = t,
                    None => overflow = true,
                }
            }
            if !overflow {
                match total.checked_add(64) {
                    Some(t) => total = t,
                    None => overflow = true,
                }
            }
            i = i + 1;
        }
        proof {
            if !overflow {
                assert(attrs@.take(i as int) =~= attrs@);
            }
        }
        if overflow {
            self.memory_usage = usize::MAX;
            return Err(self.overflow_error());
        }
        self.memory_usage = total;
        match self.check_limit() {
            Ok(()) => {},
            Err(e) => {
                return Err(e);
            },
        }
        self.stack.push(
            SubtreeNode {
                tag: tag.to_owned(),
                attrs,
                text: String::new(),
                children: Vec::new(),
            },
        );
        Ok(())
    }

    /// Closes the innermost open element: it becomes the last child of the
    /// element below it, or stays alone on the stack when it is the outermost.
    pub fn end_element(&mut self)
        requires
            old(self).open_nodes().len() >= 1,
        ensures
            final(self).usage() == old(self).usage(),
            final(self).limit() == old(self).limit(),
            final(self).error_path() == old(self).error_path(),
            old(self).open_nodes().len() == 1 ==> final(self).open_nodes() == old(
                self,
            ).open_nodes(),
            old(self).open_nodes().len() >= 2 ==> {
                let s = old(self).open_nodes();
                let t = final(self).open_nodes();
                let parent = s[s.len() - 2];
                &&& t.len() == s.len() - 1
                &&& t.drop_last() == s.drop_last().drop_last()
                &&& t.last().tag == parent.tag
                &&& t.last().attrs == parent.attrs
                &&& t.last().text == parent.text
                &&& t.last().children@ == parent.children@.push(s.last())
            },
    {
        let node = self.stack.pop().unwrap();
        let n = self.stack.len();
        if n > 0 {
            self.stack[n - 1].children.push(node);
        } else {
            self.stack.push(node);
        }
    }

    /// Appends a run of text to the innermost open element.
    ///
    /// Empty text changes nothing. Otherwise its bytes are charged; when the
    /// total then exceeds the limit `CaptureOverflow` is returned and no
    /// element changes.
    pub fn text(&mut self, text: &str) -> (r: Result<(), ReaderError>)
        ensures
            r is Ok <==> text@.len() == 0 || old(self).usage() + byte_len(text@) <= old(
                self,
            ).limit(),
            r matches Err(e) ==> e matches ReaderError::CaptureOverflow { path, limit } && path@
                == old(self).error_path() && limit == old(self).limit(),
            text@.len() == 0 ==> *final(self) == *old(self),
            r is Err ==> final(self).open_nodes() == old(self).open_nodes(),
            r is Err ==> final(self).usage() == saturated(old(self).usage() + byte_len(text@)),
            r is Ok && text@.len() > 0 ==> final(self).usage() == old(self).usage() + byte_len(
                text@,
            ),
            r is Ok && old(self).open_nodes().len() == 0 ==> final(self).open_nodes() == old(
                self,
            ).open_nodes(),
            r is Ok && old(self).open_nodes().len() > 0 ==> {
                let s = old(self).open_nodes();
                let t = final(self).open_nodes();
                &&& t.len() == s.len()
                &&& t.drop_last() == s.drop_last()
                &&& t.last().tag == s.last().tag
                &&& t.last().attrs == s.last().attrs
                &&& t.last().text@ == s.last().text@ + text@
                &&& t.last().children == s.last().children
            },
            final(self).limit() == old(self).limit(),
            final(self).error_path() == old(self).error_path(),
    {
        if text.is_empty() {
            return Ok(());
        }
        match self.memory_usage.checked_add(text.len()) {
            Some(t) => self.memory_usage = t,
            None => {
                self.memory_usage = usize::MAX;
                return Err(self.overflow_error());
            },
        }
        match self.check_limit() {
            Ok(()) => {},
            Err(e) => {
                return Err(e);
            },
        }
        let n = self.stack.len();
        if n > 0 {
            self.stack[n - 1].text.append(text);
        }
        Ok(())
    }

    /// The number of elements on the stack.
    pub fn open_count(&self) -> (r: usize)
        ensures
            r == self.open_nodes().len(),
    {
        self.stack.len()
    }

    /// The outermost captured element, with everything closed inside it.
    pub fn finalize(self) -> (r: SubtreeNode)
        requires
            self.open_nodes().len() >= 1,
        ensures
            r == self.open_nodes()[0],
    {
        let mut stack = self.stack;
        stack.swap_remove(0)
    }
}

/// A prefix of the attributes costs no more than all of them.
proof fn lemma_attrs_cost_prefix(attrs: Seq<(String, String)>, i: int)
    requires
        0 <= i <= attrs.len(),
    ensures
        attrs_cost(attrs.take(i)) <= attrs_cost(attrs),
    decreases attrs.len(),
{
    if i < attrs.len() {
        lemma_attrs_cost_prefix(attrs.drop_last(), i);
        assert(attrs.drop_last().take(i) =~= attrs.take(i));
    } else {
        assert(attrs.take(i) =~= attrs);
    }
}

} // verus!
