use vstd::prelude::*;

use crate::diagnostic::Diagnostic;
use crate::error::ReaderError;
use crate::reader::capture::{attrs_cost, byte_len, element_cost, CaptureBuilder};
use crate::reader::context::{AttrPool, ContextPool, NodeContext};
use crate::reader::events::{
    str_from_utf8, xml_event_at, RawAttribute, XmlEvent, XmlTokens,
};
use crate::reader::siblings::{
    bump, count_for, lemma_bump_counts, sibling_counter_get_or_insert, sibling_entries,
    SiblingCounters,
};
use crate::rule::{NodeAccess, Rule};
use crate::tree::descriptor::{has_flags, DescriptorTree, NodeNeeds};
use crate::tree::path::{format_path, join_path, str_eq, NodeId};
use crate::view::{
    bit_set, lemma_set_bit, ChildSummary, RuleResults, StreamingView, SubtreeNode, SubtreeView,
};

verus! {

/// Diagnostics are handed out in batches of this many.
pub const DIAG_BUFFER_DEFAULT: usize = 256;

/// The 64-bit FNV-1a hash of `bytes`.
pub open spec fn fnv1a(bytes: Seq<u8>) -> u64
    decreases bytes.len(),
{
    if bytes.len() == 0 {
        0xcbf2_9ce4_8422_2325u64
    } else {
        (((fnv1a(bytes.drop_last()) ^ (bytes.last() as u64)) as nat * 0x100_0000_01b3nat)
            % 0x1_0000_0000_0000_0000nat) as u64
    }
}

/// The 64-bit FNV-1a hash of the UTF-8 bytes of `tag`.
pub fn hash_tag(tag: &str) -> (r: u64)
    ensures
        r == fnv1a(vstd::utf8::encode_utf8(tag@)),
{
    let bytes = tag.as_bytes();
    let mut h: u64 = 0xcbf2_9ce4_8422_2325;
    let mut i: usize = 0;
    while i < bytes.len()
        invariant
            i <= bytes@.len(),
            bytes@ == vstd::utf8::encode_utf8(tag@),
            h == fnv1a(bytes@.take(i as int)),
        decreases bytes.len() - i,
    {
        proof {
            assert(bytes@.take(i as int + 1).drop_last() =~= bytes@.take(i as int));
        }
        h = h ^ (bytes[i] as u64);
        h = h.wrapping_mul(0x100_0000_01b3);
        i = i + 1;
    }
    proof {
        assert(bytes@.take(i as int) =~= bytes@);
    }
    h
}

/// The raw attribute is well formed and its key and value are valid UTF-8.
pub open spec fn attr_ok(a: RawAttribute) -> bool {
    a matches Ok((k, v)) && vstd::utf8::valid_utf8(k@) && vstd::utf8::valid_utf8(v@)
}

/// `p` holds the decoded key and value of the raw attribute `a`.
pub open spec fn decoded_pair(p: (String, String), a: RawAttribute) -> bool {
    &&& a is Ok
    &&& p.0@ == vstd::utf8::decode_utf8(a->Ok_0.0@)
    &&& p.1@ == vstd::utf8::decode_utf8(a->Ok_0.1@)
}

/// `attrs` holds the decoded keys and values of `raw`, in order.
pub open spec fn decoded_attrs(attrs: Seq<(String, String)>, raw: Seq<RawAttribute>) -> bool {
    &&& attrs.len() == raw.len()
    &&& forall|j: int| 0 <= j < attrs.len() ==> #[trigger] decoded_pair(attrs[j], raw[j])
}

/// The error for the first attribute of `raw` that is not [`attr_ok`]: the
/// tokenizer's own error, or a UTF-8 error in its key or value.
pub open spec fn attr_error_matches(raw: Seq<RawAttribute>, e: ReaderError) -> bool {
    exists|i: int|
        #![trigger raw[i]]
        0 <= i < raw.len() && !attr_ok(raw[i]) && (forall|j: int| 0 <= j < i ==> attr_ok(raw[j]))
            && match raw[i] {
            Err(x) => e == ReaderError::XmlParse { source: x },
            Ok(_) => e is Utf8,
        }
}

/// Decodes the attributes of a start tag, in order, onto `out`.
///
/// Stops at the first attribute that the tokenizer could not read
/// (`XmlParse`) or whose key or value is not UTF-8 (`Utf8`, the key checked
/// first).
pub fn parse_attributes_into(raw: Vec<RawAttribute>, out: &mut Vec<(String, String)>) -> (r: Result<
    (),
    ReaderError,
>)
    ensures
        r is Ok <==> forall|j: int| 0 <= j < raw@.len() ==> attr_ok(#[trigger] raw@[j]),
        r matches Err(e) ==> attr_error_matches(raw@, e),
        final(out)@.len() >= old(out)@.len(),
        final(out)@.take(old(out)@.len() as int) == old(out)@,
        r is Ok ==> decoded_attrs(final(out)@.skip(old(out)@.len() as int), raw@),
{
    let ghost raw0 = raw@;
    let ghost out0 = out@;
    let mut items = raw;
    let mut i: usize = 0;
    while i < items.len()
        invariant
            items@ == raw0,
            raw0 == raw@,
            out0 == old(out)@,
            i <= raw0.len(),
            forall|j: int| 0 <= j < i ==> attr_ok(#[trigger] raw0[j]),
            out@.len() == out0.len() + i,
            out@.take(out0.len() as int) == out0,
            decoded_attrs(out@.skip(out0.len() as int), raw0.take(i as int)),
        decreases raw0.len() - i,
    {
        let bad_entry = match &items[i] {
            Ok(_) => false,
            Err(_) => true,
        };
        if bad_entry {
            let taken = items.swap_remove(i);
            match taken {
                Err(e) => {
                    let err = ReaderError::XmlParse { source: e };
                    proof {
                        assert(!attr_ok(raw0[i as int]));
                        assert(attr_error_matches(raw0, err));
                    }
                    return Err(err);
                },
                Ok(_) => {
                    proof {
                        assert(false);
                    }
                    return Ok(());
                },
            }
        }
        let (key, value) = match &items[i] {
            Ok(kv) => (kv.0.as_slice(), kv.1.as_slice()),
            Err(_) => {
                proof {
                    assert(false);
                }
                return Ok(());
            },
        };
        let k = match str_from_utf8(key) {
            Ok(s) => s,
            Err(e) => {
                let err = ReaderError::Utf8 { source: e };
                proof {
                    assert(!attr_ok(raw0[i as int]));
                    assert(attr_error_matches(raw0, err));
                }
                return Err(err);
            },
        };
        let v = match str_from_utf8(value) {
            Ok(s) => s,
            Err(e) => {
                let err = ReaderError::Utf8 { source: e };
                proof {
                    assert(!attr_ok(raw0[i as int]));
                    assert(attr_error_matches(raw0, err));
                }
                return Err(err);
            },
        };
        let ghost before = out@;
        out.push((k.to_owned(), v.to_owned()));
        proof {
            let d = out@.skip(out0.len() as int);
            assert(d.drop_last() =~= before.skip(out0.len() as int));
            assert(raw0.take(i as int + 1).drop_last() =~= raw0.take(i as int));
            assert(out@.take(out0.len() as int) =~= before.take(out0.len() as int));
            assert forall|j: int| 0 <= j < d.len() implies #[trigger] d[j] == if j < d.len()
                - 1 {
                before.skip(out0.len() as int)[j]
            } else {
                out@.last()
            } by {}
        }
        i = i + 1;
    }
    proof {
        assert(raw0.take(i as int) =~= raw0);
    }
    Ok(())
}


/// Bytes that a captured element with tag `tag` and raw attributes `raw`
/// is charged, as [`element_cost`] charges the decoded attributes.
pub open spec fn raw_attrs_cost(raw: Seq<RawAttribute>) -> nat
    decreases raw.len(),
{
    if raw.len() == 0 {
        0
    } else {
        raw_attrs_cost(raw.drop_last()) + byte_len(vstd::utf8::decode_utf8(raw.last()->Ok_0.0@))
            + byte_len(vstd::utf8::decode_utf8(raw.last()->Ok_0.1@)) + 64
    }
}

/// The bytes charged for opening a captured element named `tag` with raw attributes `raw`.
pub open spec fn raw_element_cost(tag: Seq<char>, raw: Seq<RawAttribute>) -> nat {
    vstd::layout::size_of::<SubtreeNode>() + byte_len(tag) + raw_attrs_cost(raw)
}

proof fn lemma_decoded_cost(a: Seq<(String, String)>, raw: Seq<RawAttribute>, tag: Seq<char>)
    requires
        decoded_attrs(a, raw),
    ensures
        attrs_cost(a) == raw_attrs_cost(raw),
        element_cost(tag, a) == raw_element_cost(tag, raw),
    decreases raw.len(),
{
    if raw.len() > 0 {
        let a2 = a.drop_last();
        let r2 = raw.drop_last();
        lemma_decoded_prefix(a, raw, a.len() - 1);
        assert(a2 =~= a.take(a.len() - 1));
        assert(r2 =~= raw.take(raw.len() - 1));
        lemma_decoded_cost(a2, r2, tag);
        assert(decoded_pair(a[a.len() - 1], raw[raw.len() - 1]));
    }
}

proof fn lemma_decoded_prefix(a: Seq<(String, String)>, raw: Seq<RawAttribute>, n: int)
    requires
        decoded_attrs(a, raw),
        0 <= n <= a.len(),
    ensures
        decoded_attrs(a.take(n), raw.take(n)),
{
    let a2 = a.take(n);
    let r2 = raw.take(n);
    assert forall|j: int| 0 <= j < a2.len() implies #[trigger] decoded_pair(a2[j], r2[j]) by {
        assert(a[j] == a2[j]);
        assert(raw[j] == r2[j]);
        assert(decoded_pair(a[j], raw[j]));
    }
}

/// A copy of the attributes, each string cloned.
fn copy_attrs(a: &Vec<(String, String)>) -> (r: Vec<(String, String)>)
    ensures
        r@ == a@,
{
    let mut r: Vec<(String, String)> = Vec::new();
    let mut i: usize = 0;
    while i < a.len()
        invariant
            i <= a@.len(),
            r@ == a@.take(i as int),
        decreases a.len() - i,
    {
        let k = a[i].0.clone();
        let v = a[i].1.clone();
        r.push((k, v));
        proof {
            assert(r@ =~= a@.take(i as int + 1));
        }
        i = i + 1;
    }
    proof {
        assert(a@.take(i as int) =~= a@);
    }
    r
}

/// What the parser does with the element it is in.
enum ReaderMode {
    /// Tracked elements keep a context frame each.
    Streaming,
    /// A captured element is being materialized; `depth` counts its open elements.
    Capturing {
        builder: CaptureBuilder,
        depth: usize,
        descriptor_id: NodeId,
        context_stack_index: usize,
    },
}

/// The mode of a [`StreamParser`] as the contracts see it.
pub ghost enum ModeView {
    Streaming,
    Capturing { builder: CaptureBuilder, depth: nat, id: NodeId },
}

/// Node `c` of `t` is a child of node `p` declared with tag `tag`.
pub open spec fn is_tagged_child<R>(t: DescriptorTree<R>, p: int, c: int, tag: Seq<char>) -> bool {
    &&& 0 <= c < t.nodes@.len()
    &&& t.nodes@[c].parent_id == Some(NodeId(p as u32))
    &&& t.nodes@[c].tag@ == tag
}

/// The descriptor that an element named `tag` opens under the open frames:
/// the root when no frame is open and `tag` is the root's tag, else the
/// child of the innermost frame's descriptor declared with that tag.
pub open spec fn target_descriptor<R>(t: DescriptorTree<R>, frames: Seq<NodeContext>, tag: Seq<char>) -> Option<int> {
    if frames.len() == 0 {
        if t.nodes@[0].tag@ == tag {
            Some(0)
        } else {
            None
        }
    } else {
        let p = frames.last().descriptor_id.0 as int;
        if exists|c: int| is_tagged_child(t, p, c, tag) {
            Some(choose|c: int| is_tagged_child(t, p, c, tag))
        } else {
            None
        }
    }
}

/// The open frames follow a path of the descriptor tree down from its root.
pub open spec fn frames_on_path<R>(t: DescriptorTree<R>, frames: Seq<NodeContext>) -> bool {
    &&& forall|k: int| 0 <= k < frames.len() ==> (#[trigger] frames[k]).descriptor_id.0 < t.nodes@.len()
    &&& frames.len() > 0 ==> frames[0].descriptor_id == NodeId(0)
    &&& forall|k: int|
        0 < k < frames.len() ==> #[trigger] t.nodes@[frames[k].descriptor_id.0 as int].parent_id
            == Some(frames[k - 1].descriptor_id)
}

/// `ctx` is the frame opened for descriptor `id` with sibling index `index`,
/// holding the decoded attributes when `keep_attrs` and none otherwise.
pub open spec fn opened_frame(
    ctx: NodeContext,
    id: NodeId,
    index: u32,
    keep_attrs: bool,
    raw: Seq<RawAttribute>,
) -> bool {
    &&& ctx.descriptor_id == id
    &&& ctx.index == index
    &&& if keep_attrs {
        decoded_attrs(ctx.attrs@, raw)
    } else {
        ctx.attrs@.len() == 0
    }
    &&& ctx.text@.len() == 0
    &&& ctx.children@.len() == 0
}

/// `b2` is `b` with one more open element, named `tag` with the decoded
/// attributes of `raw`, charged for.
pub open spec fn pushed_element(
    b: CaptureBuilder,
    b2: CaptureBuilder,
    tag: Seq<char>,
    raw: Seq<RawAttribute>,
) -> bool {
    let s = b.open_nodes();
    let t = b2.open_nodes();
    &&& t.len() == s.len() + 1
    &&& t.drop_last() == s
    &&& t.last().tag@ == tag
    &&& decoded_attrs(t.last().attrs@, raw)
    &&& t.last().text@.len() == 0
    &&& t.last().children@.len() == 0
    &&& b2.usage() == b.usage() + raw_element_cost(tag, raw)
    &&& b2.limit() == b.limit()
    &&& b2.error_path() == b.error_path()
}

/// The number of summaries in `cs` whose declared tag in `t` is `tag`.
pub open spec fn count_tagged<R>(t: DescriptorTree<R>, cs: Seq<ChildSummary>, tag: Seq<char>) -> nat
    decreases cs.len(),
{
    if cs.len() == 0 {
        0
    } else {
        count_tagged(t, cs.drop_last(), tag) + if t.nodes@[cs.last().descriptor_id.0 as int].tag@
            == tag {
            1nat
        } else {
            0nat
        }
    }
}

/// Whether the frame above frame `k` of `f` is declared with tag `tag`.
pub open spec fn open_child_tagged<R>(t: DescriptorTree<R>, f: Seq<NodeContext>, k: int, tag: Seq<char>) -> nat {
    if k + 1 < f.len() && t.nodes@[f[k + 1].descriptor_id.0 as int].tag@ == tag {
        1
    } else {
        0
    }
}

/// The sibling counters `cs` of the frames `f` count, for each frame and
/// each tag, the frame's tracked children with that tag: those that closed
/// (its summaries) and the one still open above it, modulo 2^32.
pub open spec fn counters_follow_children<R>(
    t: DescriptorTree<R>,
    f: Seq<NodeContext>,
    cs: Seq<Seq<(u64, Seq<char>, u32)>>,
) -> bool {
    forall|k: int, tag: Seq<char>|
        0 <= k < f.len() ==> #[trigger] count_for(cs[k], tag) as nat == (count_tagged(
            t,
            f[k].children@,
            tag,
        ) + open_child_tagged(t, f, k, tag)) % 0x1_0000_0000
}

/// `x % m + 1`, taken modulo `m`, is `(x + 1) % m`.
proof fn lemma_mod_succ(x: nat, m: nat)
    requires
        m > 1,
    ensures
        ((x % m) + 1) % m == (x + 1) % m,
{
    vstd::arithmetic::div_mod::lemma_add_mod_noop(x as int, 1, m as int);
    vstd::arithmetic::div_mod::lemma_small_mod(1, m);
}

/// Opening a frame `c`, declared with tag `tag`, on top of `f` keeps the
/// counters following the children when the top frame's counters count
/// one more child with that tag and the new frame starts with none.
proof fn lemma_counters_after_open<R>(
    t: DescriptorTree<R>,
    f: Seq<NodeContext>,
    cs: Seq<Seq<(u64, Seq<char>, u32)>>,
    c: NodeContext,
    tag: Seq<char>,
)
    requires
        counters_follow_children(t, f, cs),
        cs.len() == f.len(),
        t.nodes@[c.descriptor_id.0 as int].tag@ == tag,
        c.children@.len() == 0,
    ensures
        counters_follow_children(
            t,
            f.push(c),
            (if f.len() == 0 {
                cs
            } else {
                cs.drop_last().push(bump(cs.last(), tag))
            }).push(Seq::<(u64, Seq<char>, u32)>::empty()),
        ),
{
    let f2 = f.push(c);
    let cs2 = (if f.len() == 0 {
        cs
    } else {
        cs.drop_last().push(bump(cs.last(), tag))
    }).push(Seq::<(u64, Seq<char>, u32)>::empty());
    let n = f.len();
    assert forall|k: int, tg: Seq<char>| 0 <= k < f2.len() implies #[trigger] count_for(cs2[k], tg) as nat
        == (count_tagged(t, f2[k].children@, tg) + open_child_tagged(t, f2, k, tg)) % 0x1_0000_0000 by {
        if k == n {
            assert(cs2[k] == Seq::<(u64, Seq<char>, u32)>::empty());
            assert(count_for(cs2[k], tg) == 0);
            assert(count_tagged(t, c.children@, tg) == 0);
        } else if k == n - 1 {
            assert(f2[k] == f[k]);
            assert(cs2[k] == bump(cs[k], tag));
            assert(count_for(cs[k], tg) as nat == (count_tagged(t, f[k].children@, tg)
                + open_child_tagged(t, f, k, tg)) % 0x1_0000_0000);
            assert(open_child_tagged(t, f, k, tg) == 0);
            lemma_bump_counts(cs[k], tag, tg);
            if tg == tag {
                lemma_mod_succ(count_tagged(t, f[k].children@, tg), 0x1_0000_0000);
            }
        } else {
            assert(f2[k] == f[k]);
            assert(f2[k + 1] == f[k + 1]);
            assert(cs2[k] == cs[k]);
            assert(count_for(cs[k], tg) as nat == (count_tagged(t, f[k].children@, tg)
                + open_child_tagged(t, f, k, tg)) % 0x1_0000_0000);
        }
    }
}

/// The skip depth after one more unmatched element opens (wrapping around
/// at `usize::MAX`, a machine limit of the depth).
pub open spec fn next_skip(d: nat) -> nat {
    if d == usize::MAX {
        0
    } else {
        d + 1
    }
}

/// Every raw attribute is well formed and UTF-8.
pub open spec fn all_attrs_ok(raw: Seq<RawAttribute>) -> bool {
    forall|j: int| 0 <= j < raw.len() ==> attr_ok(#[trigger] raw[j])
}

/// `e` reports that a capture went beyond `limit` bytes at `path`.
pub open spec fn is_overflow(e: ReaderError, path: Seq<char>, limit: usize) -> bool {
    e matches ReaderError::CaptureOverflow { path: p, limit: l } && p@ == path && l == limit
}

/// Two children of one node with one tag are the same node.
proof fn lemma_tagged_child_unique<R>(t: DescriptorTree<R>, p: int, c1: int, c2: int, tag: Seq<char>)
    requires
        t.wf(),
        0 <= p < t.nodes@.len(),
        is_tagged_child(t, p, c1, tag),
        is_tagged_child(t, p, c2, tag),
    ensures
        c1 == c2,
{
    if c1 != c2 {
        assert(c1 != 0) by {
            if c1 == 0 {
                assert(t.nodes@[0].parent_id is None);
            }
        }
        assert(c2 != 0) by {
            if c2 == 0 {
                assert(t.nodes@[0].parent_id is None);
            }
        }
        assert(t.parent_of(c1) == p);
        assert(t.parent_of(c2) == p);
        assert(t.path_of(c1) == t.path_of(p).push(tag));
        assert(t.path_of(c2) == t.path_of(p).push(tag));
    }
}

/// `b2` is `b` after the text `text` reached its innermost open element.
pub open spec fn appended_text(b: CaptureBuilder, b2: CaptureBuilder, text: Seq<char>) -> bool {
    if text.len() == 0 {
        b2 == b
    } else {
        let s = b.open_nodes();
        let t = b2.open_nodes();
        &&& b2.usage() == b.usage() + byte_len(text)
        &&& b2.limit() == b.limit()
        &&& b2.error_path() == b.error_path()
        &&& t.len() == s.len()
        &&& t.drop_last() == s.drop_last()
        &&& t.last().tag == s.last().tag
        &&& t.last().attrs == s.last().attrs
        &&& t.last().text@ == s.last().text@ + text
        &&& t.last().children == s.last().children
    }
}

/// `c2` is the frame `c` with `text` appended to its text.
pub open spec fn frame_with_text(c: NodeContext, c2: NodeContext, text: Seq<char>) -> bool {
    &&& c2.attrs == c.attrs
    &&& c2.text@ == c.text@ + text
    &&& c2.children == c.children
    &&& c2.descriptor_id == c.descriptor_id
    &&& c2.index == c.index
}

/// The diagnostics of `ds`, one list after the other.
pub open spec fn concat_all(ds: Seq<Seq<Diagnostic>>) -> Seq<Diagnostic>
    decreases ds.len(),
{
    if ds.len() == 0 {
        Seq::empty()
    } else {
        concat_all(ds.drop_last()) + ds.last()
    }
}

/// `rr` records, for each of the rules whose diagnostics are `ds`, that it
/// passed exactly when it reported nothing; no other bit is set.
pub open spec fn results_match(rr: RuleResults, ds: Seq<Seq<Diagnostic>>) -> bool {
    &&& ds.len() <= 64
    &&& forall|k: u64| k < 64 ==> #[trigger] bit_set(rr.0, k) == (k < ds.len() && ds[k as int].len() == 0)
}

/// Moves every buffered diagnostic, in order, to the end of `out`.
fn flush_diagnostics(buffer: &mut Vec<Diagnostic>, out: &mut Vec<Diagnostic>)
    ensures
        final(out)@ == old(out)@ + old(buffer)@,
        final(buffer)@.len() == 0,
{
    out.append(buffer);
}

/// Buffers one diagnostic; a full buffer moves to the end of `out`.
fn buffer_diagnostic(buffer: &mut Vec<Diagnostic>, out: &mut Vec<Diagnostic>, diag: Diagnostic)
    requires
        old(buffer)@.len() < DIAG_BUFFER_DEFAULT,
    ensures
        final(out)@ + final(buffer)@ == old(out)@ + old(buffer)@.push(diag),
        final(buffer)@.len() == (old(buffer)@.len() + 1) % (DIAG_BUFFER_DEFAULT as nat),
{
    buffer.push(diag);
    if buffer.len() >= DIAG_BUFFER_DEFAULT {
        let ghost b = buffer@;
        flush_diagnostics(buffer, out);
        proof {
            assert(out@ + buffer@ =~= old(out)@ + b);
        }
    }
}

/// Buffers the diagnostics in order, moving the buffer to `out` each time it fills.
fn emit_all(buffer: &mut Vec<Diagnostic>, out: &mut Vec<Diagnostic>, diags: Vec<Diagnostic>)
    requires
        old(buffer)@.len() < DIAG_BUFFER_DEFAULT,
    ensures
        final(out)@ + final(buffer)@ == old(out)@ + old(buffer)@ + diags@,
        final(buffer)@.len() == (old(buffer)@.len() + diags@.len()) % (DIAG_BUFFER_DEFAULT as nat),
{
    let ghost dv = diags@;
    let ghost start = old(out)@ + old(buffer)@;
    let ghost b0 = old(buffer)@.len();
    let mut rest = diags;
    let ghost mut taken: int = 0;
    while rest.len() > 0
        invariant
            0 <= taken <= dv.len(),
            taken + rest@.len() == dv.len(),
            rest@ == dv.skip(taken),
            buffer@.len() < DIAG_BUFFER_DEFAULT,
            out@ + buffer@ == start + dv.take(taken),
            buffer@.len() == (b0 + taken) % (DIAG_BUFFER_DEFAULT as int),
            start == old(out)@ + old(buffer)@,
            b0 == old(buffer)@.len(),
        decreases rest.len(),
    {
        let d = rest.remove(0);
        let ghost before = out@ + buffer@;
        let ghost out0 = out@;
        let ghost buf0 = buffer@;
        proof {
            assert(d == dv[taken]);
            assert(dv.take(taken + 1) =~= dv.take(taken).push(d));
            assert(rest@ =~= dv.skip(taken + 1));
            let x: int = b0 + taken;
            assert((x + 1) % 256 == if x % 256 == 255 {
                0
            } else {
                x % 256 + 1
            }) by (nonlinear_arith)
                requires
                    x >= 0,
            ;
        }
        buffer_diagnostic(buffer, out, d);
        proof {
            assert(out0 + buf0.push(d) =~= before.push(d));
            assert(before.push(d) =~= start + dv.take(taken + 1));
            assert(out@ + buffer@ =~= start + dv.take(taken + 1));
            taken = taken + 1;
        }
    }
    proof {
        assert(dv.take(taken) =~= dv);
    }
}

/// What each output reported, in order.
pub open spec fn outputs_view(outs: Seq<Vec<Diagnostic>>) -> Seq<Seq<Diagnostic>> {
    Seq::new(outs.len(), |k: int| outs[k]@)
}

/// Evaluates each rule on `view`, in order, buffering what each reports and
/// recording which reported nothing.
fn evaluate_rules<R: Rule>(
    rules: &Vec<R>,
    view: &dyn NodeAccess,
    buffer: &mut Vec<Diagnostic>,
    out: &mut Vec<Diagnostic>,
) -> (r: (RuleResults, Ghost<Seq<Vec<Diagnostic>>>))
    requires
        rules@.len() <= 64,
        old(buffer)@.len() < DIAG_BUFFER_DEFAULT,
    ensures
        final(buffer)@.len() < DIAG_BUFFER_DEFAULT,
        ({
            let (rr, outs) = (r.0, r.1@);
            let ds = outputs_view(outs);
            &&& outs.len() == rules@.len()
            &&& exists|v: &dyn NodeAccess|
                #![trigger v.spec_tag()]
                {
                    &&& v.spec_tag() == view.spec_tag()
                    &&& v.spec_attrs() == view.spec_attrs()
                    &&& v.spec_text() == view.spec_text()
                    &&& v.spec_element_index() == view.spec_element_index()
                    &&& v.spec_path() == view.spec_path()
                    &&& v.spec_children() == view.spec_children()
                    &&& v.spec_subtree() == view.spec_subtree()
                    &&& v.spec_ancestors() == view.spec_ancestors()
                    &&& forall|k: int|
                        0 <= k < outs.len() ==> call_ensures(
                            R::evaluate,
                            (&rules@[k], v),
                            #[trigger] outs[k],
                        )
                }
            &&& results_match(rr, ds)
            &&& final(out)@ + final(buffer)@ == old(out)@ + old(buffer)@ + concat_all(ds)
            &&& final(buffer)@.len() == (old(buffer)@.len() + concat_all(ds).len()) % (
            DIAG_BUFFER_DEFAULT as nat)
        }),
{
    let mut rr = RuleResults::empty();
    let ghost mut ds: Seq<Seq<Diagnostic>> = Seq::empty();
    let ghost mut outs: Seq<Vec<Diagnostic>> = Seq::empty();
    proof {
        assert forall|k: u64| k < 64 implies !#[trigger] bit_set(0u64, k) by {
            assert(k < 64 ==> ((0u64 >> k) & 1u64) != 1u64) by (bit_vector);
        }
    }
    let mut i: usize = 0;
    while i < rules.len()
        invariant
            i <= rules@.len(),
            rules@.len() <= 64,
            ds.len() == i,
            ds == outputs_view(outs),
            outs.len() == i,
            forall|k: int|
                0 <= k < i ==> call_ensures(R::evaluate, (&rules@[k], view), #[trigger] outs[k]),
            results_match(rr, ds),
            buffer@.len() < DIAG_BUFFER_DEFAULT,
            out@ + buffer@ == old(out)@ + old(buffer)@ + concat_all(ds),
            buffer@.len() == (old(buffer)@.len() + concat_all(ds).len()) % (DIAG_BUFFER_DEFAULT as nat),
        decreases rules.len() - i,
    {
        let diags = rules[i].evaluate(view);
        let ghost diags_v = diags;
        let passed = diags.len() == 0;
        let ghost dv = diags@;
        let ghost rr0 = rr;
        emit_all(buffer, out, diags);
        rr.set(i, passed);
        proof {
            let ds2 = ds.push(dv);
            assert(ds2.drop_last() =~= ds);
            assert(concat_all(ds2) == concat_all(ds) + dv);
            assert(old(out)@ + old(buffer)@ + concat_all(ds2) =~= old(out)@ + old(buffer)@
                + concat_all(ds) + dv);
            let x: int = (old(buffer)@.len() + concat_all(ds).len()) as int;
            let y: int = dv.len() as int;
            assert((x + y) % 256 == (x % 256 + y) % 256) by (nonlinear_arith)
                requires
                    y >= 0,
            ;
            assert forall|k: u64| k < 64 implies #[trigger] bit_set(rr.0, k) == (k < ds2.len()
                && ds2[k as int].len() == 0) by {
                if passed {
                    lemma_set_bit(rr0.0, i as u64, k);
                }
                assert(bit_set(rr0.0, k) == (k < ds.len() && ds[k as int].len() == 0));
                if k < ds.len() {
                    assert(ds2[k as int] == ds[k as int]);
                }
            }
            ds = ds2;
            outs = outs.push(diags_v);
            assert(ds =~= outputs_view(outs));
        }
        i = i + 1;
    }
    proof {
        // Every rule was called on `view` itself.
        let witness = view;
        assert(witness.spec_tag() == view.spec_tag());
    }
    (rr, Ghost(outs))
}

/// `s` summarizes the closed element whose frame was `ctx`: its attributes
/// and `text` when the parent reads them (`summary_needs`), its descriptor,
/// its sibling index and its rule results `rr`.
pub open spec fn summary_of(
    s: ChildSummary,
    ctx: NodeContext,
    summary_needs: u8,
    text: Seq<char>,
    rr: RuleResults,
) -> bool {
    &&& s.attrs@ == if has_flags(summary_needs, 1u8) {
        ctx.attrs@
    } else {
        Seq::<(String, String)>::empty()
    }
    &&& s.text@ == if has_flags(summary_needs, 2u8) {
        text
    } else {
        Seq::<char>::empty()
    }
    &&& s.descriptor_id == ctx.descriptor_id
    &&& s.index == ctx.index
    &&& s.rule_results == rr
}

/// `p2` is the frame `p` with one more child summary, for the closed frame
/// `child`.
pub open spec fn parent_with_child(
    p: NodeContext,
    p2: NodeContext,
    child: NodeContext,
    summary_needs: u8,
    text: Seq<char>,
    rr: RuleResults,
) -> bool {
    &&& p2.attrs == p.attrs
    &&& p2.text == p.text
    &&& p2.descriptor_id == p.descriptor_id
    &&& p2.index == p.index
    &&& p2.children@.len() == p.children@.len() + 1
    &&& p2.children@.drop_last() == p.children@
    &&& summary_of(p2.children@.last(), child, summary_needs, text, rr)
}

/// `b2` is `b` after its innermost open element closed inside the capture.
pub open spec fn closed_in_capture(b: CaptureBuilder, b2: CaptureBuilder) -> bool {
    let s = b.open_nodes();
    let t = b2.open_nodes();
    let parent = s[s.len() - 2];
    &&& b2.usage() == b.usage()
    &&& b2.limit() == b.limit()
    &&& b2.error_path() == b.error_path()
    &&& t.len() == s.len() - 1
    &&& t.drop_last() == s.drop_last().drop_last()
    &&& t.last().tag == parent.tag
    &&& t.last().attrs == parent.attrs
    &&& t.last().text == parent.text
    &&& t.last().children@ == parent.children@.push(s.last())
}

/// The streaming validation engine: consumes tokenizer events, keeps a
/// context frame per open tracked element, skips undeclared subtrees,
/// materializes captured subtrees, and evaluates each element's rules when
/// it closes.
///
/// Diagnostics are buffered and moved to the ready list in batches of
/// [`DIAG_BUFFER_DEFAULT`]; `finish` moves the rest. After an error the
/// parser is no longer well formed and must be dropped.
pub struct StreamParser<'t, R> {
    tree: &'t DescriptorTree<R>,
    context_stack: Vec<NodeContext>,
    descriptor_stack: Vec<Option<NodeId>>,
    mode: ReaderMode,
    skip_depth: usize,
    sibling_counters: Vec<SiblingCounters>,
    sibling_pool: Vec<SiblingCounters>,
    ctx_pool: ContextPool,
    attr_pool: AttrPool,
    diag_buffer: Vec<Diagnostic>,
    flushed: Vec<Diagnostic>,
}

impl<'t, R: Rule> StreamParser<'t, R> {
    /// The descriptor tree the parser validates against.
    pub closed spec fn tree(&self) -> DescriptorTree<R> {
        *self.tree
    }

    /// The context frames of the open tracked elements, outermost first.
    pub closed spec fn frames(&self) -> Seq<NodeContext> {
        self.context_stack@
    }

    /// How many open elements are being skipped (0 when none).
    pub closed spec fn skip(&self) -> nat {
        self.skip_depth as nat
    }

    /// Whether the parser streams or captures.
    pub closed spec fn mode(&self) -> ModeView {
        match self.mode {
            ReaderMode::Streaming => ModeView::Streaming,
            ReaderMode::Capturing { builder, depth, descriptor_id, .. } => ModeView::Capturing {
                builder,
                depth: depth as nat,
                id: descriptor_id,
            },
        }
    }

    /// The sibling counters of the open frames, outermost first.
    pub closed spec fn counters(&self) -> Seq<Seq<(u64, Seq<char>, u32)>> {
        self.sibling_counters@.map_values(|c: SiblingCounters| sibling_entries(c))
    }

    /// Every diagnostic produced and not yet taken, in order.
    pub closed spec fn emitted(&self) -> Seq<Diagnostic> {
        self.flushed@ + self.diag_buffer@
    }

    /// The diagnostics moved out of the buffer, ready to be handed out.
    pub closed spec fn ready(&self) -> Seq<Diagnostic> {
        self.flushed@
    }

    /// The number of buffered diagnostics not yet ready.
    pub closed spec fn pending_len(&self) -> nat {
        self.diag_buffer@.len()
    }

    /// The internal links between the stacks, modes and buffers hold.
    pub closed spec fn wf(&self) -> bool {
        let t = *self.tree;
        let f = self.context_stack@;
        &&& t.wf()
        &&& t.rules_fit()
        &&& frames_on_path(t, f)
        &&& self.descriptor_stack@.len() == f.len()
        &&& forall|k: int|
            0 <= k < f.len() ==> #[trigger] self.descriptor_stack@[k] == Some(f[k].descriptor_id)
        &&& self.sibling_counters@.len() == f.len()
        &&& counters_follow_children(t, f, self.counters())
        &&& self.diag_buffer@.len() < DIAG_BUFFER_DEFAULT
        &&& self.attr_pool.held().len() == 0
        &&& match self.mode {
            ReaderMode::Streaming => true,
            ReaderMode::Capturing { builder, depth, descriptor_id, context_stack_index } => {
                &&& f.len() >= 1
                &&& context_stack_index == f.len() - 1
                &&& descriptor_id == f.last().descriptor_id
                &&& depth >= 1
                &&& builder.open_nodes().len() == depth
                &&& self.skip_depth == 0
                &&& builder.limit() == t.capture_memory_limit
                &&& has_flags(t.nodes@[descriptor_id.0 as int].needs.0, 8u8)
            },
        }
    }

    /// The number of open elements of the document: tracked frames, skipped
    /// elements, and the elements open inside a captured one.
    pub open spec fn open_depth(&self) -> nat {
        self.frames().len() + self.skip() + match self.mode() {
            ModeView::Capturing { depth, .. } => (depth - 1) as nat,
            ModeView::Streaming => 0,
        }
    }

    /// A parser for `tree`, before any event.
    pub fn new(tree: &'t DescriptorTree<R>) -> (r: StreamParser<'t, R>)
        requires
            tree.wf(),
            tree.rules_fit(),
        ensures
            r.wf(),
            r.tree() == *tree,
            r.frames().len() == 0,
            r.skip() == 0,
            r.mode() == ModeView::Streaming,
            r.counters().len() == 0,
            r.emitted().len() == 0,
            r.ready().len() == 0,
            r.pending_len() == 0,
    {
        let r = StreamParser {
            tree,
            context_stack: Vec::new(),
            descriptor_stack: Vec::new(),
            mode: ReaderMode::Streaming,
            skip_depth: 0,
            sibling_counters: Vec::new(),
            sibling_pool: Vec::new(),
            ctx_pool: ContextPool::new(),
            attr_pool: AttrPool::new(),
            diag_buffer: Vec::new(),
            flushed: Vec::new(),
        };
        proof {
            assert(r.emitted() =~= Seq::<Diagnostic>::empty());
        }
        r
    }

    /// What opening an element named `tag` with raw attributes `raw` does
    /// in capture mode: the element joins the capture.
    pub open spec fn capture_start_outcome(
        s: StreamParser<'t, R>,
        s2: StreamParser<'t, R>,
        tag: Seq<char>,
        raw: Seq<RawAttribute>,
        r: Result<(), ReaderError>,
    ) -> bool {
        s.mode() matches ModeView::Capturing { builder, depth, id } ==> {
            &&& r is Ok <==> all_attrs_ok(raw) && builder.usage() + raw_element_cost(tag, raw)
                <= builder.limit()
            &&& r matches Err(e) ==> if all_attrs_ok(raw) {
                is_overflow(e, builder.error_path(), builder.limit())
            } else {
                attr_error_matches(raw, e)
            }
            &&& r is Ok ==> {
                &&& s2.mode() matches ModeView::Capturing { builder: b2, depth: d2, id: id2 } && d2
                    == depth + 1 && id2 == id && pushed_element(builder, b2, tag, raw)
                &&& s2.frames() == s.frames()
                &&& s2.counters() == s.counters()
                &&& s2.skip() == 0
                &&& s2.emitted() == s.emitted()
                &&& s2.ready() == s.ready()
            }
        }
    }

    /// What opening an element named `tag` with raw attributes `raw` does
    /// in streaming mode: it opens its declared descriptor, or starts a skip.
    pub open spec fn stream_start_outcome(
        s: StreamParser<'t, R>,
        s2: StreamParser<'t, R>,
        tag: Seq<char>,
        raw: Seq<RawAttribute>,
        r: Result<(), ReaderError>,
    ) -> bool {
        s.mode() is Streaming ==> match target_descriptor(s.tree(), s.frames(), tag) {
            None => if s.frames().len() == 0 {
                r matches Err(ReaderError::RootMismatch { expected, found }) && expected@
                    == s.tree().nodes@[0].tag@ && found@ == tag
            } else {
                &&& r is Ok
                &&& s2.skip() == 1
                &&& s2.frames() == s.frames()
                &&& s2.counters() == s.counters()
                &&& s2.mode() == s.mode()
                &&& s2.emitted() == s.emitted()
                &&& s2.ready() == s.ready()
            },
            Some(c) => {
                let t = s.tree();
                let node = t.nodes@[c];
                let capture = has_flags(node.needs.0, 8u8);
                let keep = has_flags(node.needs.0, 1u8) || has_flags(node.summary_needs.0, 1u8)
                    || capture;
                let f = s.frames();
                let index = if f.len() == 0 {
                    0u32
                } else {
                    count_for(s.counters().last(), tag)
                };
                let counters2 = if f.len() == 0 {
                    s.counters()
                } else {
                    s.counters().drop_last().push(bump(s.counters().last(), tag))
                };
                &&& r is Ok <==> (keep ==> all_attrs_ok(raw)) && (capture ==> raw_element_cost(
                    tag,
                    raw,
                ) <= t.capture_memory_limit)
                &&& r matches Err(e) ==> if keep && !all_attrs_ok(raw) {
                    attr_error_matches(raw, e)
                } else {
                    is_overflow(e, join_path(t.path_of(c)), t.capture_memory_limit)
                }
                &&& r is Ok ==> {
                    &&& s2.frames().len() == f.len() + 1
                    &&& s2.frames().drop_last() == f
                    &&& opened_frame(s2.frames().last(), NodeId(c as u32), index, keep, raw)
                    &&& s2.counters() == counters2.push(Seq::<(u64, Seq<char>, u32)>::empty())
                    &&& s2.skip() == 0
                    &&& s2.emitted() == s.emitted()
                    &&& s2.ready() == s.ready()
                    &&& if capture {
                        s2.mode() matches ModeView::Capturing { builder, depth, id } && depth == 1
                            && id == NodeId(c as u32) && builder.open_nodes().len() == 1
                            && builder.open_nodes()[0].tag@ == tag && decoded_attrs(
                            builder.open_nodes()[0].attrs@,
                            raw,
                        ) && builder.open_nodes()[0].text@.len() == 0
                            && builder.open_nodes()[0].children@.len() == 0 && builder.usage()
                            == raw_element_cost(tag, raw) && builder.limit()
                            == t.capture_memory_limit && builder.error_path() == join_path(
                            t.path_of(c),
                        )
                    } else {
                        s2.mode() == ModeView::Streaming
                    }
                }
            },
        }
    }

    /// What the start of an element named by the raw bytes `name`, with raw
    /// attributes `raw`, does.
    pub open spec fn start_outcome(
        s: StreamParser<'t, R>,
        s2: StreamParser<'t, R>,
        name: Seq<u8>,
        raw: Seq<RawAttribute>,
        r: Result<(), ReaderError>,
    ) -> bool {
        if s.skip() > 0 {
            &&& r is Ok
            &&& s2.skip() == next_skip(s.skip())
            &&& s2.frames() == s.frames()
            &&& s2.counters() == s.counters()
            &&& s2.mode() == s.mode()
            &&& s2.emitted() == s.emitted()
            &&& s2.ready() == s.ready()
        } else if !vstd::utf8::valid_utf8(name) {
            r matches Err(ReaderError::Utf8 { .. })
        } else {
            &&& Self::capture_start_outcome(s, s2, vstd::utf8::decode_utf8(name), raw, r)
            &&& Self::stream_start_outcome(s, s2, vstd::utf8::decode_utf8(name), raw, r)
        }
    }

    /// Opens an element named by the raw bytes `name`, with raw attributes `attrs`.
    ///
    /// While skipping, only counts the element. Otherwise the name must be
    /// UTF-8. Inside a captured element, the element joins the capture.
    /// Otherwise it opens the descriptor declared for it under the innermost
    /// frame or, when there is none, starts a skip; at top level it must be
    /// the root, else the document is refused (`RootMismatch`).
    /// A tracked element gets the next sibling index of its tag, a fresh
    /// frame (holding its attributes when it or its parent reads them, or
    /// when it is captured) and fresh sibling counters; a capture element
    /// also starts the capture of its subtree.
    pub fn handle_start(&mut self, name: &[u8], attrs: Vec<RawAttribute>) -> (r: Result<
        (),
        ReaderError,
    >)
        requires
            old(self).wf(),
        ensures
            r is Ok ==> final(self).wf(),
            final(self).tree() == old(self).tree(),
            Self::start_outcome(*old(self), *final(self), name@, attrs@, r),
            r is Ok && old(self).skip() < usize::MAX ==> final(self).open_depth() == old(
                self,
            ).open_depth() + 1,
    {
        if self.skip_depth > 0 {
            self.skip_depth = if self.skip_depth == usize::MAX {
                0
            } else {
                self.skip_depth + 1
            };
            return Ok(());
        }
        let tag_name = match str_from_utf8(name) {
            Ok(t) => t,
            Err(e) => {
                return Err(ReaderError::Utf8 { source: e });
            },
        };
        let mut mode = ReaderMode::Streaming;
        core::mem::swap(&mut mode, &mut self.mode);
        match mode {
            ReaderMode::Capturing { mut builder, depth, descriptor_id, context_stack_index } => {
                let mut kept = self.attr_pool.acquire();
                match parse_attributes_into(attrs, &mut kept) {
                    Ok(()) => {},
                    Err(e) => {
                        return Err(e);
                    },
                }
                proof {
                    assert(kept@.skip(0) =~= kept@);
                    lemma_decoded_cost(kept@, attrs@, tag_name@);
                }
                match builder.start_element(tag_name, kept) {
                    Ok(()) => {},
                    Err(e) => {
                        return Err(e);
                    },
                }
                let new_depth = builder.open_count();
                self.mode = ReaderMode::Capturing {
                    builder,
                    depth: new_depth,
                    descriptor_id,
                    context_stack_index,
                };
                Ok(())
            },
            ReaderMode::Streaming => self.open_tracked(tag_name, attrs),
        }
    }

    /// Opens a tracked element, or starts a skip, in streaming mode.
    fn open_tracked(&mut self, tag_name: &str, attrs: Vec<RawAttribute>) -> (r: Result<
        (),
        ReaderError,
    >)
        requires
            old(self).wf(),
            old(self).skip() == 0,
            old(self).mode() is Streaming,
        ensures
            r is Ok ==> final(self).wf(),
            final(self).tree() == old(self).tree(),
            Self::stream_start_outcome(*old(self), *final(self), tag_name@, attrs@, r),
    {
        let tree: &'t DescriptorTree<R> = self.tree;
        let frames_len = self.context_stack.len();
        let ghost frames0 = self.context_stack@;
        let target: Option<NodeId> = if frames_len == 0 {
            let root_tag = tree.get(NodeId(0)).tag.as_str();
            if str_eq(root_tag, tag_name) {
                Some(NodeId(0))
            } else {
                return Err(
                    ReaderError::RootMismatch {
                        expected: root_tag.to_owned(),
                        found: tag_name.to_owned(),
                    },
                );
            }
        } else {
            match self.descriptor_stack[frames_len - 1] {
                Some(pid) => tree.child_of(pid, tag_name),
                None => None,
            }
        };
        proof {
            let t = *tree;
            let f = self.context_stack@;
            if frames_len > 0 {
                assert(self.descriptor_stack@[frames_len - 1] == Some(f[frames_len - 1].descriptor_id));
                let p = f.last().descriptor_id.0 as int;
                assert(f[frames_len - 1] == f.last());
                match target {
                    Some(c) => {
                        let ci = c.0 as int;
                        let k = choose|k: int| 0 <= k < t.nodes@[p].child_ids@.len() && t.nodes@[p].child_ids@[k] == NodeId(ci as u32);
                        assert(t.nodes@[p].child_ids@[k] == c);
                        assert(is_tagged_child(t, p, ci, tag_name@));
                        let c2 = choose|c2: int| is_tagged_child(t, p, c2, tag_name@);
                        lemma_tagged_child_unique(t, p, ci, c2, tag_name@);
                        assert(target_descriptor(t, f, tag_name@) == Some(ci));
                    },
                    None => {
                        assert(!exists|c: int| is_tagged_child(t, p, c, tag_name@));
                    },
                }
            }
        }
        let id = match target {
            None => {
                self.skip_depth = 1;
                return Ok(());
            },
            Some(id) => id,
        };
        let tag_hash = hash_tag(tag_name);
        let ghost counters0 = self.counters();
        let index: u32 = if frames_len > 0 {
            sibling_counter_get_or_insert(&mut self.sibling_counters[frames_len - 1], tag_name, tag_hash)
        } else {
            0
        };
        let desc = tree.get(id);
        let is_capture = desc.needs.is_capture();
        let need_attrs = desc.needs.contains(NodeNeeds::attrs()) || desc.summary_needs.contains(
            NodeNeeds::attrs(),
        );
        let mut kept: Vec<(String, String)> = Vec::new();
        if need_attrs || is_capture {
            kept = self.attr_pool.acquire();
            match parse_attributes_into(attrs, &mut kept) {
                Ok(()) => {},
                Err(e) => {
                    return Err(e);
                },
            }
            proof {
                assert(kept@.skip(0) =~= kept@);
            }
        }
        self.descriptor_stack.push(Some(id));
        let sib = match self.sibling_pool.pop() {
            Some(c) => {
                let mut c = c;
                c.clear();
                c
            },
            None => SiblingCounters::new(),
        };
        self.sibling_counters.push(sib);
        if is_capture {
            let ctx_index = self.context_stack.len();
            let path_str = format_path(desc.full_path.as_slice());
            let mut builder = CaptureBuilder::new(tree.capture_memory_limit, path_str);
            proof {
                lemma_decoded_cost(kept@, attrs@, tag_name@);
            }
            match builder.start_element(tag_name, copy_attrs(&kept)) {
                Ok(()) => {},
                Err(e) => {
                    return Err(e);
                },
            }
            let ctx = self.ctx_pool.acquire(id, kept, index);
            self.context_stack.push(ctx);
            self.mode = ReaderMode::Capturing {
                builder,
                depth: 1,
                descriptor_id: id,
                context_stack_index: ctx_index,
            };
        } else {
            let ctx = self.ctx_pool.acquire(id, kept, index);
            self.context_stack.push(ctx);
        }
        proof {
            assert(self.context_stack@.drop_last() =~= frames0);
            assert(self.counters() =~= (if frames_len == 0 {
                counters0
            } else {
                counters0.drop_last().push(bump(counters0.last(), tag_name@))
            }).push(Seq::<(u64, Seq<char>, u32)>::empty()));
            assert(tree.nodes@[id.0 as int].tag@ == tag_name@);
            lemma_counters_after_open(*tree, frames0, counters0, self.context_stack@.last(), tag_name@);
        }
        Ok(())
    }

    /// What a run of character data does: it goes to the capture, or to the
    /// innermost frame when that element or its parent reads text.
    pub open spec fn text_outcome(
        s: StreamParser<'t, R>,
        s2: StreamParser<'t, R>,
        content: Result<String, quick_xml::Error>,
        r: Result<(), ReaderError>,
    ) -> bool {
        let f = s.frames();
        let t = s.tree();
        let unchanged = s2.frames() == f && s2.counters() == s.counters() && s2.mode()
            == s.mode() && s2.skip() == s.skip() && s2.emitted() == s.emitted() && s2.ready()
            == s.ready();
        if s.skip() > 0 {
            r is Ok && unchanged
        } else {
            match s.mode() {
                ModeView::Capturing { builder, depth, id } => {
                    &&& r is Ok <==> content is Ok && (content->Ok_0@.len() == 0 || builder.usage()
                        + byte_len(content->Ok_0@) <= builder.limit())
                    &&& r matches Err(e) ==> match content {
                        Err(x) => e == ReaderError::XmlParse { source: x },
                        Ok(_) => is_overflow(e, builder.error_path(), builder.limit()),
                    }
                    &&& r is Ok ==> {
                        &&& s2.mode() matches ModeView::Capturing { builder: b2, depth: d2, id: id2 }
                            && d2 == depth && id2 == id && appended_text(
                            builder,
                            b2,
                            content->Ok_0@,
                        )
                        &&& s2.frames() == f
                        &&& s2.counters() == s.counters()
                        &&& s2.skip() == 0
                        &&& s2.emitted() == s.emitted()
                        &&& s2.ready() == s.ready()
                    }
                },
                ModeView::Streaming => {
                    let wants = f.len() > 0 && (has_flags(
                        t.nodes@[f.last().descriptor_id.0 as int].needs.0,
                        2u8,
                    ) || has_flags(t.nodes@[f.last().descriptor_id.0 as int].summary_needs.0, 2u8));
                    &&& r is Ok <==> !wants || content is Ok
                    &&& r matches Err(e) ==> e == ReaderError::XmlParse { source: content->Err_0 }
                    &&& r is Ok && !wants ==> unchanged
                    &&& r is Ok && wants ==> {
                        &&& s2.frames().len() == f.len()
                        &&& s2.frames().drop_last() == f.drop_last()
                        &&& frame_with_text(f.last(), s2.frames().last(), content->Ok_0@)
                        &&& s2.counters() == s.counters()
                        &&& s2.mode() == s.mode()
                        &&& s2.skip() == 0
                        &&& s2.emitted() == s.emitted()
                        &&& s2.ready() == s.ready()
                    }
                },
            }
        }
    }

    /// Handles a run of character data, decoded or with its decoding error.
    ///
    /// Skipped elements ignore it. A captured element records it (charged
    /// against the capture limit). A tracked element appends it to its frame
    /// when it or its parent reads text; only then does a decoding error
    /// matter.
    pub fn handle_text(&mut self, content: Result<String, quick_xml::Error>) -> (r: Result<
        (),
        ReaderError,
    >)
        requires
            old(self).wf(),
        ensures
            r is Ok ==> final(self).wf(),
            final(self).tree() == old(self).tree(),
            Self::text_outcome(*old(self), *final(self), content, r),
            r is Ok ==> final(self).open_depth() == old(self).open_depth(),
    {
        if self.skip_depth > 0 {
            return Ok(());
        }
        let mut mode = ReaderMode::Streaming;
        core::mem::swap(&mut mode, &mut self.mode);
        match mode {
            ReaderMode::Capturing { mut builder, depth, descriptor_id, context_stack_index } => {
                let text = match content {
                    Ok(t) => t,
                    Err(e) => {
                        return Err(ReaderError::XmlParse { source: e });
                    },
                };
                if !text.as_str().is_empty() {
                    match builder.text(text.as_str()) {
                        Ok(()) => {},
                        Err(e) => {
                            return Err(e);
                        },
                    }
                }
                self.mode = ReaderMode::Capturing {
                    builder,
                    depth,
                    descriptor_id,
                    context_stack_index,
                };
                Ok(())
            },
            ReaderMode::Streaming => {
                let n = self.context_stack.len();
                if n == 0 {
                    return Ok(());
                }
                let tree: &'t DescriptorTree<R> = self.tree;
                let desc = tree.get(self.context_stack[n - 1].descriptor_id);
                let need_text = desc.needs.contains(NodeNeeds::text())
                    || desc.summary_needs.contains(NodeNeeds::text());
                if need_text {
                    let text = match content {
                        Ok(t) => t,
                        Err(e) => {
                            return Err(ReaderError::XmlParse { source: e });
                        },
                    };
                    let ghost frames0 = self.context_stack@;
                    if !text.as_str().is_empty() {
                        self.context_stack[n - 1].text.append(text.as_str());
                    }
                    proof {
                        assert(self.context_stack@.drop_last() =~= frames0.drop_last());
                        assert(self.context_stack@.last().text@ =~= frames0.last().text@ + text@);
                    }
                }
                Ok(())
            },
        }
    }

    /// The tag a rule reads of the innermost element of `s`: its declared
    /// tag, or the tag of its materialized subtree when it was captured.
    pub open spec fn closed_tag(s: StreamParser<'t, R>, captured: Option<SubtreeNode>) -> Seq<char> {
        match captured {
            Some(root) => root.tag@,
            None => s.tree().nodes@[s.frames().last().descriptor_id.0 as int].tag@,
        }
    }

    /// The attributes a rule reads of the innermost element of `s`.
    pub open spec fn closed_attrs(s: StreamParser<'t, R>, captured: Option<SubtreeNode>) -> Seq<(String, String)> {
        match captured {
            Some(root) => root.attrs@,
            None => s.frames().last().attrs@,
        }
    }

    /// The direct text of the innermost element of `s`: that of its frame,
    /// or that of its materialized subtree when it was captured.
    pub open spec fn closed_text(s: StreamParser<'t, R>, captured: Option<SubtreeNode>) -> Seq<char> {
        match captured {
            Some(root) => root.text@,
            None => s.frames().last().text@,
        }
    }

    /// The child summaries a rule reads of the innermost element of `s`
    /// (none when it was captured: its children are in the subtree).
    pub open spec fn closed_children(s: StreamParser<'t, R>, captured: Option<SubtreeNode>) -> Seq<ChildSummary> {
        match captured {
            Some(root) => Seq::empty(),
            None => s.frames().last().children@,
        }
    }

    /// Closing the innermost frame of `s` gave `s2`, the outputs of its
    /// rules, in order, being `outs` and their results `rr`: what they
    /// report is emitted in that order, the summary goes to the parent frame.
    pub open spec fn closed_with(
        s: StreamParser<'t, R>,
        s2: StreamParser<'t, R>,
        captured: Option<SubtreeNode>,
        outs: Seq<Vec<Diagnostic>>,
        rr: RuleResults,
    ) -> bool {
        let f = s.frames();
        let top = f.last();
        let node = s.tree().nodes@[top.descriptor_id.0 as int];
        let ds = outputs_view(outs);
        &&& outs.len() == node.rules@.len()
        &&& results_match(rr, ds)
        &&& s2.emitted() == s.emitted() + concat_all(ds)
        &&& s2.pending_len() == (s.pending_len() + concat_all(ds).len()) % (
        DIAG_BUFFER_DEFAULT as nat)
        &&& f.len() >= 2 ==> s2.frames().drop_last() == f.drop_last().drop_last()
            && parent_with_child(
            f[f.len() - 2],
            s2.frames().last(),
            top,
            node.summary_needs.0,
            Self::closed_text(s, captured),
            rr,
        )
    }

    /// What closing the innermost frame does (`captured` holding its
    /// materialized subtree when it was captured): each of its rules is
    /// called once, in order, on one view `v` of the element (its tag,
    /// attributes, text, children or subtree, sibling index, declared path
    /// and tracked ancestors), and what they report is emitted in that
    /// order; its summary goes to the parent frame; its frame and counters
    /// are dropped; streaming resumes.
    pub open spec fn closed_frame(s: StreamParser<'t, R>, s2: StreamParser<'t, R>, captured: Option<SubtreeNode>) -> bool {
        let f = s.frames();
        let top = f.last();
        let node = s.tree().nodes@[top.descriptor_id.0 as int];
        &&& s2.frames().len() == f.len() - 1
        &&& s2.counters() == s.counters().drop_last()
        &&& s2.mode() == ModeView::Streaming
        &&& s2.skip() == 0
        &&& exists|v: &dyn NodeAccess, outs: Seq<Vec<Diagnostic>>, rr: RuleResults|
            #![trigger Self::closed_with(s, s2, captured, outs, rr), v.spec_tag()]
            {
                &&& v.spec_tag() == Self::closed_tag(s, captured)
                &&& v.spec_attrs() == Self::closed_attrs(s, captured)
                &&& v.spec_text() == Self::closed_text(s, captured)
                &&& v.spec_children() == Self::closed_children(s, captured)
                &&& v.spec_subtree() == captured
                &&& v.spec_element_index() == top.index
                &&& v.spec_path() == s.tree().path_of(top.descriptor_id.0 as int)
                &&& v.spec_ancestors() == f.drop_last()
                &&& forall|k: int|
                    0 <= k < outs.len() ==> call_ensures(
                        R::evaluate,
                        (&node.rules@[k], v),
                        #[trigger] outs[k],
                    )
                &&& Self::closed_with(s, s2, captured, outs, rr)
            }
    }

    /// What the end of an element does.
    pub open spec fn end_outcome(s: StreamParser<'t, R>, s2: StreamParser<'t, R>) -> bool {
        let same_but_skip = s2.frames() == s.frames() && s2.counters() == s.counters()
            && s2.mode() == s.mode() && s2.emitted() == s.emitted() && s2.ready() == s.ready();
        if s.skip() > 0 {
            s2.skip() == s.skip() - 1 && same_but_skip
        } else {
            match s.mode() {
                ModeView::Capturing { builder, depth, id } => if depth > 1 {
                    &&& s2.mode() matches ModeView::Capturing { builder: b2, depth: d2, id: id2 }
                        && d2 == depth - 1 && id2 == id && closed_in_capture(builder, b2)
                    &&& s2.frames() == s.frames()
                    &&& s2.counters() == s.counters()
                    &&& s2.skip() == 0
                    &&& s2.emitted() == s.emitted()
                    &&& s2.ready() == s.ready()
                } else {
                    Self::closed_frame(s, s2, Some(builder.open_nodes()[0]))
                },
                ModeView::Streaming => if s.frames().len() == 0 {
                    s2.skip() == 0 && same_but_skip
                } else {
                    Self::closed_frame(s, s2, None)
                },
            }
        }
    }

    /// Closes the innermost open element.
    ///
    /// A skipped element only lowers the skip depth; an element inside a
    /// capture joins its parent there. Closing a tracked or captured element
    /// runs its rules (on a view of its frame, or of its materialized
    /// subtree), emits what they report, and hands its summary to the parent
    /// frame.
    pub fn handle_end(&mut self) -> (r: Result<(), ReaderError>)
        requires
            old(self).wf(),
        ensures
            r is Ok,
            final(self).wf(),
            final(self).tree() == old(self).tree(),
            Self::end_outcome(*old(self), *final(self)),
            old(self).open_depth() > 0 ==> final(self).open_depth() == old(self).open_depth() - 1,
            old(self).open_depth() == 0 ==> final(self).open_depth() == 0,
    {
        if self.skip_depth > 0 {
            self.skip_depth = self.skip_depth - 1;
            return Ok(());
        }
        let mut mode = ReaderMode::Streaming;
        core::mem::swap(&mut mode, &mut self.mode);
        match mode {
            ReaderMode::Capturing { mut builder, depth, descriptor_id, context_stack_index } => {
                if depth > 1 {
                    builder.end_element();
                    self.mode = ReaderMode::Capturing {
                        builder,
                        depth: depth - 1,
                        descriptor_id,
                        context_stack_index,
                    };
                    return Ok(());
                }
                builder.end_element();
                let root = builder.finalize();
                let ghost s1 = *self;
                self.close_captured(root, descriptor_id);
                proof {
                    lemma_closed_frame_same_state(s1, *old(self), *self, Some(root));
                }
                Ok(())
            },
            ReaderMode::Streaming => {
                if self.context_stack.len() > 0 {
                    self.close_streaming();
                }
                Ok(())
            },
        }
    }

    /// Closes the innermost tracked frame in streaming mode.
    #[verifier::rlimit(40)]
    fn close_streaming(&mut self)
        requires
            old(self).wf(),
            old(self).skip() == 0,
            old(self).mode() is Streaming,
            old(self).frames().len() > 0,
        ensures
            final(self).wf(),
            final(self).tree() == old(self).tree(),
            Self::closed_frame(*old(self), *final(self), None),
    {
        let ghost s0 = *self;
        let tree: &'t DescriptorTree<R> = self.tree;
        let n = self.context_stack.len();
        let id = self.context_stack[n - 1].descriptor_id;
        let node = tree.get(id);
        let view = StreamingView::new(self.context_stack.as_slice(), n - 1, tree);
        let (rr, Ghost(outs)) = evaluate_rules(&node.rules, &view, &mut self.diag_buffer, &mut self.flushed);
        let ghost ds = outputs_view(outs);
        let ghost v = choose|v: &dyn NodeAccess| {
            &&& v.spec_tag() == view.spec_tag()
            &&& v.spec_attrs() == view.spec_attrs()
            &&& v.spec_text() == view.spec_text()
            &&& v.spec_element_index() == view.spec_element_index()
            &&& v.spec_path() == view.spec_path()
            &&& v.spec_children() == view.spec_children()
            &&& v.spec_subtree() == view.spec_subtree()
            &&& v.spec_ancestors() == view.spec_ancestors()
            &&& forall|k: int|
                0 <= k < outs.len() ==> call_ensures(R::evaluate, (&node.rules@[k], v), #[trigger] outs[k])
        };
        proof {
            assert(self.context_stack@.subrange(0, n - 1) =~= s0.frames().drop_last());
        }
        self.descriptor_stack.pop();
        match self.sibling_counters.pop() {
            Some(sib) => self.sibling_pool.push(sib),
            None => {},
        }
        let ghost frames1 = self.context_stack@;
        let ctx = self.context_stack.pop().unwrap();
        let NodeContext { attrs, text, children: _, descriptor_id, index } = ctx;
        let summary_needs = node.summary_needs;
        let kept_attrs = if summary_needs.contains(NodeNeeds::attrs()) {
            attrs
        } else {
            Vec::new()
        };
        let kept_text = if summary_needs.contains(NodeNeeds::text()) {
            text
        } else {
            String::new()
        };
        let summary = ChildSummary {
            attrs: kept_attrs,
            text: kept_text,
            descriptor_id,
            index,
            rule_results: rr,
        };
        if n >= 2 {
            self.context_stack[n - 2].children.push(summary);
        }
        proof {
            let f = s0.frames();
            assert(f == frames1);
            assert(self.counters() =~= s0.counters().drop_last());
            if n >= 2 {
                assert(self.context_stack@.drop_last() =~= f.drop_last().drop_last());
                assert(self.context_stack@.last().children@.drop_last() =~= f[n - 2].children@);
                assert(self.context_stack@.last() == self.context_stack@[n - 2]);
            }
            assert(frames_on_path(*tree, self.context_stack@)) by {
                assert forall|k: int| 0 < k < self.context_stack@.len() implies #[trigger] tree.nodes@[self.context_stack@[k].descriptor_id.0 as int].parent_id == Some(self.context_stack@[k - 1].descriptor_id) by {
                    assert(self.context_stack@[k].descriptor_id == f[k].descriptor_id);
                    assert(self.context_stack@[k - 1].descriptor_id == f[k - 1].descriptor_id);
                }
                assert forall|k: int| 0 <= k < self.context_stack@.len() implies (#[trigger] self.context_stack@[k]).descriptor_id.0 < tree.nodes@.len() by {
                    assert(self.context_stack@[k].descriptor_id == f[k].descriptor_id);
                }
                if self.context_stack@.len() > 0 {
                    assert(self.context_stack@[0].descriptor_id == f[0].descriptor_id);
                }
            }
            assert forall|k: int| 0 <= k < self.context_stack@.len() implies #[trigger] self.descriptor_stack@[k] == Some(self.context_stack@[k].descriptor_id) by {
                assert(self.descriptor_stack@[k] == s0.descriptor_stack@[k]);
                assert(self.context_stack@[k].descriptor_id == f[k].descriptor_id);
            }
            assert(self.emitted() == s0.emitted() + concat_all(ds));
            assert(Self::closed_with(s0, *self, None, outs, rr));
            assert(v.spec_tag() == Self::closed_tag(s0, None));
        }
    }

    /// Closes a captured element whose materialized subtree is `root`.
    #[verifier::rlimit(40)]
    fn close_captured(&mut self, root: SubtreeNode, descriptor_id: NodeId)
        requires
            old(self).wf(),
            old(self).skip() == 0,
            old(self).mode() is Streaming,
            old(self).frames().len() > 0,
            descriptor_id == old(self).frames().last().descriptor_id,
        ensures
            final(self).wf(),
            final(self).tree() == old(self).tree(),
            Self::closed_frame(*old(self), *final(self), Some(root)),
    {
        let ghost s0 = *self;
        let tree: &'t DescriptorTree<R> = self.tree;
        let n = self.context_stack.len();
        let idx = n - 1;
        let node = tree.get(descriptor_id);
        let index = self.context_stack[idx].index;
        let (parents, _) = self.context_stack.as_slice().split_at(idx);
        let view = SubtreeView::new(&root, descriptor_id, index, parents, tree);
        let (rr, Ghost(outs)) = evaluate_rules(&node.rules, &view, &mut self.diag_buffer, &mut self.flushed);
        let ghost ds = outputs_view(outs);
        let ghost v = choose|v: &dyn NodeAccess| {
            &&& v.spec_tag() == view.spec_tag()
            &&& v.spec_attrs() == view.spec_attrs()
            &&& v.spec_text() == view.spec_text()
            &&& v.spec_element_index() == view.spec_element_index()
            &&& v.spec_path() == view.spec_path()
            &&& v.spec_children() == view.spec_children()
            &&& v.spec_subtree() == view.spec_subtree()
            &&& v.spec_ancestors() == view.spec_ancestors()
            &&& forall|k: int|
                0 <= k < outs.len() ==> call_ensures(R::evaluate, (&node.rules@[k], v), #[trigger] outs[k])
        };
        proof {
            assert(parents@ =~= s0.frames().drop_last());
        }
        let summary_needs = node.summary_needs;
        let ghost frames1 = self.context_stack@;
        let mut ctx = self.context_stack.pop().unwrap();
        let ghost ctx0 = ctx;
        let kept_attrs = if summary_needs.contains(NodeNeeds::attrs()) {
            let mut a: Vec<(String, String)> = Vec::new();
            core::mem::swap(&mut a, &mut ctx.attrs);
            a
        } else {
            Vec::new()
        };
        let kept_text = if summary_needs.contains(NodeNeeds::text()) {
            root.text.clone()
        } else {
            String::new()
        };
        let summary = ChildSummary {
            attrs: kept_attrs,
            text: kept_text,
            descriptor_id,
            index: ctx.index,
            rule_results: rr,
        };
        self.ctx_pool.release(ctx);
        self.descriptor_stack.pop();
        match self.sibling_counters.pop() {
            Some(sib) => self.sibling_pool.push(sib),
            None => {},
        }
        if n >= 2 {
            self.context_stack[n - 2].children.push(summary);
        }
        proof {
            let f = s0.frames();
            assert(f == frames1);
            assert(ctx0 == f.last());
            assert(self.counters() =~= s0.counters().drop_last());
            if n >= 2 {
                assert(self.context_stack@.drop_last() =~= f.drop_last().drop_last());
                assert(self.context_stack@.last().children@.drop_last() =~= f[n - 2].children@);
                assert(self.context_stack@.last() == self.context_stack@[n - 2]);
            }
            assert(frames_on_path(*tree, self.context_stack@)) by {
                assert forall|k: int| 0 < k < self.context_stack@.len() implies #[trigger] tree.nodes@[self.context_stack@[k].descriptor_id.0 as int].parent_id == Some(self.context_stack@[k - 1].descriptor_id) by {
                    assert(self.context_stack@[k].descriptor_id == f[k].descriptor_id);
                    assert(self.context_stack@[k - 1].descriptor_id == f[k - 1].descriptor_id);
                }
                assert forall|k: int| 0 <= k < self.context_stack@.len() implies (#[trigger] self.context_stack@[k]).descriptor_id.0 < tree.nodes@.len() by {
                    assert(self.context_stack@[k].descriptor_id == f[k].descriptor_id);
                }
                if self.context_stack@.len() > 0 {
                    assert(self.context_stack@[0].descriptor_id == f[0].descriptor_id);
                }
            }
            assert forall|k: int| 0 <= k < self.context_stack@.len() implies #[trigger] self.descriptor_stack@[k] == Some(self.context_stack@[k].descriptor_id) by {
                assert(self.descriptor_stack@[k] == s0.descriptor_stack@[k]);
                assert(self.context_stack@[k].descriptor_id == f[k].descriptor_id);
            }
            assert(self.emitted() == s0.emitted() + concat_all(ds));
            assert(Self::closed_with(s0, *self, Some(root), outs, rr));
            assert(v.spec_tag() == Self::closed_tag(s0, Some(root)));
        }
    }

    /// What one tokenizer event does: `Ok(true)` marks the end of the input.
    pub open spec fn event_outcome(
        s: StreamParser<'t, R>,
        s2: StreamParser<'t, R>,
        ev: XmlEvent,
        r: Result<bool, ReaderError>,
    ) -> bool {
        let unit = match r {
            Ok(_) => Ok::<(), ReaderError>(()),
            Err(e) => Err(e),
        };
        match ev {
            XmlEvent::Start { name, attrs } => r != Ok::<bool, ReaderError>(true)
                && Self::start_outcome(s, s2, name@, attrs@, unit),
            XmlEvent::End => r == Ok::<bool, ReaderError>(false) && Self::end_outcome(s, s2),
            XmlEvent::Empty { name, attrs } => r != Ok::<bool, ReaderError>(true) && exists|
                mid: StreamParser<'t, R>,
            |
                {
                    &&& Self::start_outcome(s, mid, name@, attrs@, unit)
                    &&& r is Ok ==> mid.wf() && Self::end_outcome(mid, s2)
                },
            XmlEvent::Text { content } => r != Ok::<bool, ReaderError>(true)
                && Self::text_outcome(s, s2, content, unit),
            XmlEvent::Eof => r == Ok::<bool, ReaderError>(true) && s2 == s,
            XmlEvent::Other => r == Ok::<bool, ReaderError>(false) && s2 == s,
        }
    }

    /// Handles one tokenizer event; returns `Ok(true)` at the end of the input.
    ///
    /// A self-closing element is a start followed by an end; comments,
    /// declarations and the like change nothing.
    pub fn handle_event(&mut self, ev: XmlEvent) -> (r: Result<bool, ReaderError>)
        requires
            old(self).wf(),
        ensures
            r is Ok ==> final(self).wf(),
            final(self).tree() == old(self).tree(),
            Self::event_outcome(*old(self), *final(self), ev, r),
    {
        match ev {
            XmlEvent::Start { name, attrs } => match self.handle_start(name.as_slice(), attrs) {
                Ok(()) => Ok(false),
                Err(e) => Err(e),
            },
            XmlEvent::End => {
                let _ = self.handle_end();
                Ok(false)
            },
            XmlEvent::Empty { name, attrs } => {
                let ghost s0 = *self;
                match self.handle_start(name.as_slice(), attrs) {
                    Ok(()) => {},
                    Err(e) => {
                        proof {
                            assert(Self::start_outcome(s0, *self, name@, attrs@, Err::<(), ReaderError>(e)));
                        }
                        return Err(e);
                    },
                }
                let ghost mid = *self;
                let _ = self.handle_end();
                proof {
                    assert(Self::start_outcome(s0, mid, name@, attrs@, Ok::<(), ReaderError>(())));
                    assert(Self::end_outcome(mid, *self));
                }
                Ok(false)
            },
            XmlEvent::Text { content } => match self.handle_text(content) {
                Ok(()) => Ok(false),
                Err(e) => Err(e),
            },
            XmlEvent::Eof => Ok(true),
            XmlEvent::Other => Ok(false),
        }
    }

    /// Hands out the diagnostics that are ready, in order.
    pub fn take_ready(&mut self) -> (r: Vec<Diagnostic>)
        requires
            old(self).wf(),
        ensures
            final(self).wf(),
            r@ == old(self).ready(),
            final(self).ready().len() == 0,
            final(self).emitted() == old(self).emitted().skip(old(self).ready().len() as int),
            final(self).pending_len() == old(self).pending_len(),
            final(self).tree() == old(self).tree(),
            final(self).frames() == old(self).frames(),
            final(self).counters() == old(self).counters(),
            final(self).mode() == old(self).mode(),
            final(self).skip() == old(self).skip(),
    {
        let mut out: Vec<Diagnostic> = Vec::new();
        out.append(&mut self.flushed);
        proof {
            assert(self.emitted() =~= old(self).emitted().skip(old(self).ready().len() as int));
        }
        out
    }

    /// Ends the parse: every diagnostic not yet handed out, in order.
    pub fn finish(self) -> (r: Vec<Diagnostic>)
        ensures
            r@ == self.emitted(),
    {
        let mut out = self.flushed;
        let mut rest = self.diag_buffer;
        flush_diagnostics(&mut rest, &mut out);
        out
    }
}

/// The buffered diagnostics are exactly those emitted after the ready ones,
/// and there are fewer of them than a batch.
pub proof fn lemma_ready_prefix<'t, R: Rule>(p: StreamParser<'t, R>)
    requires
        p.wf(),
    ensures
        p.ready() == p.emitted().take(p.ready().len() as int),
        p.emitted().len() == p.ready().len() + p.pending_len(),
        p.pending_len() < DIAG_BUFFER_DEFAULT,
{
    assert(p.emitted().take(p.ready().len() as int) =~= p.ready());
}

/// The open frames of a well-formed parser follow a path of its descriptor
/// tree from the root: each frame's descriptor is a child of the one below.
pub proof fn lemma_frames_follow_tree<'t, R: Rule>(p: StreamParser<'t, R>)
    requires
        p.wf(),
    ensures
        frames_on_path(p.tree(), p.frames()),
        p.counters().len() == p.frames().len(),
        p.mode() matches ModeView::Capturing { builder, depth, id } ==> {
            &&& p.frames().len() >= 1
            &&& id == p.frames().last().descriptor_id
            &&& depth >= 1
            &&& builder.open_nodes().len() == depth
            &&& p.skip() == 0
        },
{
}

/// Frame `k` of frames that follow a path of a well-formed tree from its
/// root is declared at depth `k`: its path has `k + 1` segments.
proof fn lemma_frame_depth<R>(t: DescriptorTree<R>, frames: Seq<NodeContext>, k: int)
    requires
        t.wf(),
        frames_on_path(t, frames),
        0 <= k < frames.len(),
    ensures
        t.path_of(frames[k].descriptor_id.0 as int).len() == k + 1,
    decreases k,
{
    if k > 0 {
        lemma_frame_depth(t, frames, k - 1);
        let c = frames[k].descriptor_id.0 as int;
        assert(t.nodes@[c].parent_id == Some(frames[k - 1].descriptor_id));
        if c == 0 {
            assert(t.nodes@[0].parent_id is None);
        }
        assert(t.parent_of(c) == frames[k - 1].descriptor_id.0 as int);
        assert(t.path_of(c) == t.path_of(t.parent_of(c)).push(t.nodes@[c].tag@));
    }
}

/// Streaming memory grows with the declared depth, not with the document:
/// a well-formed parser holds exactly as many frames (and sibling counter
/// sets) as the declared path of its innermost frame has segments.
pub proof fn lemma_frames_bounded_by_depth<'t, R: Rule>(p: StreamParser<'t, R>)
    requires
        p.wf(),
        p.frames().len() > 0,
    ensures
        p.frames().len() == p.tree().path_of(p.frames().last().descriptor_id.0 as int).len(),
        p.counters().len() == p.frames().len(),
{
    lemma_frames_follow_tree(p);
    lemma_frame_depth(p.tree(), p.frames(), p.frames().len() - 1);
}

/// A tracked element's sibling index is the number of tracked elements
/// with its tag that its parent holds already (those that closed before it
/// under the same parent), modulo 2^32: elements with different tags never
/// share a count, whatever their hashes.
pub proof fn lemma_sibling_index_counts_same_tag<'t, R: Rule>(
    s: StreamParser<'t, R>,
    s2: StreamParser<'t, R>,
    name: Seq<u8>,
    raw: Seq<RawAttribute>,
)
    requires
        s.wf(),
        s.skip() == 0,
        s.mode() is Streaming,
        s.frames().len() > 0,
        vstd::utf8::valid_utf8(name),
        target_descriptor(s.tree(), s.frames(), vstd::utf8::decode_utf8(name)) is Some,
        StreamParser::start_outcome(s, s2, name, raw, Ok(())),
    ensures
        s2.frames().len() == s.frames().len() + 1,
        s2.frames().last().index as nat == count_tagged(
            s.tree(),
            s.frames().last().children@,
            vstd::utf8::decode_utf8(name),
        ) % 0x1_0000_0000,
{
    let tag = vstd::utf8::decode_utf8(name);
    let f = s.frames();
    let k = f.len() - 1;
    assert(counters_follow_children(s.tree(), f, s.counters()));
    assert(count_for(s.counters()[k], tag) as nat == (count_tagged(s.tree(), f[k].children@, tag)
        + open_child_tagged(s.tree(), f, k, tag)) % 0x1_0000_0000);
    assert(s.counters()[k] == s.counters().last());
}

/// Character data inside a streamed element whose parent reads its
/// children's summaries with their text (the element's summary needs hold
/// text) is collected, whatever the element's own needs: after text `c` and
/// then the element's end tag, the summary its parent receives carries the
/// element's earlier text followed by `c`.
pub proof fn lemma_summary_text_collects_character_data<'t, R: Rule>(
    s: StreamParser<'t, R>,
    m: StreamParser<'t, R>,
    s2: StreamParser<'t, R>,
    c: String,
)
    requires
        s.wf(),
        s.skip() == 0,
        s.mode() is Streaming,
        s.frames().len() >= 2,
        has_flags(s.tree().nodes@[s.frames().last().descriptor_id.0 as int].summary_needs.0, 2u8),
        StreamParser::event_outcome(s, m, XmlEvent::Text { content: Ok(c) }, Ok(false)),
        m.wf(),
        m.tree() == s.tree(),
        StreamParser::event_outcome(m, s2, XmlEvent::End, Ok(false)),
    ensures
        m.frames().len() == s.frames().len(),
        m.frames().last().text@ == s.frames().last().text@ + c@,
        s2.frames().len() == s.frames().len() - 1,
        s2.frames().last().children@.last().text@ == s.frames().last().text@ + c@,
{
    let f = m.frames();
    let top = f.last();
    let node = m.tree().nodes@[top.descriptor_id.0 as int];
    assert(m.frames().last().descriptor_id == s.frames().last().descriptor_id);
    assert(StreamParser::closed_frame(m, s2, None));
    let (v, outs, rr) = choose|v: &dyn NodeAccess, outs: Seq<Vec<Diagnostic>>, rr: RuleResults|
        {
            &&& v.spec_tag() == StreamParser::closed_tag(m, None)
            &&& v.spec_attrs() == StreamParser::closed_attrs(m, None)
            &&& v.spec_text() == StreamParser::closed_text(m, None)
            &&& v.spec_children() == StreamParser::closed_children(m, None)
            &&& v.spec_subtree() == None::<SubtreeNode>
            &&& v.spec_element_index() == top.index
            &&& v.spec_path() == m.tree().path_of(top.descriptor_id.0 as int)
            &&& v.spec_ancestors() == f.drop_last()
            &&& forall|k: int|
                0 <= k < outs.len() ==> call_ensures(
                    R::evaluate,
                    (&node.rules@[k], v),
                    #[trigger] outs[k],
                )
            &&& StreamParser::closed_with(m, s2, None, outs, rr)
        };
    assert(StreamParser::closed_with(m, s2, None, outs, rr));
}

/// A tracked element whose parent reads its children's attributes (its
/// summary needs hold attributes) keeps its decoded attributes in its
/// frame, whatever its own needs, so its summary can carry them.
pub proof fn lemma_summary_attrs_are_kept<'t, R: Rule>(
    s: StreamParser<'t, R>,
    s2: StreamParser<'t, R>,
    name: Seq<u8>,
    raw: Seq<RawAttribute>,
)
    requires
        s.wf(),
        s.skip() == 0,
        s.mode() is Streaming,
        vstd::utf8::valid_utf8(name),
        target_descriptor(s.tree(), s.frames(), vstd::utf8::decode_utf8(name)) matches Some(c)
            && has_flags(s.tree().nodes@[c].summary_needs.0, 1u8),
        StreamParser::start_outcome(s, s2, name, raw, Ok(())),
    ensures
        s2.frames().len() == s.frames().len() + 1,
        decoded_attrs(s2.frames().last().attrs@, raw),
{
}

/// A tracked, streamed element that opens and closes with nothing in
/// between leaves the open frames as they were, except that the innermost
/// one gains the element's summary (its descriptor and its sibling index),
/// and the count of the element's tag under that frame advances by one.
pub proof fn lemma_element_round_trip<'t, R: Rule>(
    s: StreamParser<'t, R>,
    mid: StreamParser<'t, R>,
    s2: StreamParser<'t, R>,
    name: Seq<u8>,
    raw: Seq<RawAttribute>,
)
    requires
        s.wf(),
        s.skip() == 0,
        s.mode() is Streaming,
        s.frames().len() > 0,
        vstd::utf8::valid_utf8(name),
        target_descriptor(s.tree(), s.frames(), vstd::utf8::decode_utf8(name)) matches Some(c)
            && !has_flags(s.tree().nodes@[c].needs.0, 8u8),
        StreamParser::start_outcome(s, mid, name, raw, Ok(())),
        mid.wf(),
        StreamParser::end_outcome(mid, s2),
    ensures
        ({
            let c = target_descriptor(s.tree(), s.frames(), vstd::utf8::decode_utf8(name))->0;
            let tag = vstd::utf8::decode_utf8(name);
            let p = s.frames().last();
            let p2 = s2.frames().last();
            &&& s2.frames().len() == s.frames().len()
            &&& s2.frames().drop_last() == s.frames().drop_last()
            &&& p2.children@.len() == p.children@.len() + 1
            &&& p2.children@.drop_last() == p.children@
            &&& p2.children@.last().descriptor_id == NodeId(c as u32)
            &&& p2.children@.last().index == count_for(s.counters().last(), tag)
            &&& s2.counters() == s.counters().drop_last().push(bump(s.counters().last(), tag))
            &&& s2.mode() is Streaming
            &&& s2.skip() == 0
        }),
{
    let f = mid.frames();
    assert(f.drop_last() == s.frames());
    assert(f[f.len() - 2] == s.frames().last());
    assert(mid.mode() is Streaming);
}

/// An element that is skipped (undeclared where it opens, or inside a
/// skipped element) and closes with nothing in between leaves the parser's
/// frames, counters, mode, skip depth and diagnostics as they were.
pub proof fn lemma_skipped_element_round_trip<'t, R: Rule>(
    s: StreamParser<'t, R>,
    mid: StreamParser<'t, R>,
    s2: StreamParser<'t, R>,
    name: Seq<u8>,
    raw: Seq<RawAttribute>,
)
    requires
        s.wf(),
        s.skip() > 0 && s.skip() < usize::MAX || s.skip() == 0 && s.mode() is Streaming
            && s.frames().len() > 0 && vstd::utf8::valid_utf8(name) && target_descriptor(
            s.tree(),
            s.frames(),
            vstd::utf8::decode_utf8(name),
        ) is None,
        StreamParser::start_outcome(s, mid, name, raw, Ok(())),
        mid.wf(),
        StreamParser::end_outcome(mid, s2),
    ensures
        s2.frames() == s.frames(),
        s2.counters() == s.counters(),
        s2.mode() == s.mode(),
        s2.skip() == s.skip(),
        s2.emitted() == s.emitted(),
        s2.ready() == s.ready(),
{
}

/// Inside a capture, an element that opens and closes with nothing in
/// between becomes the last child of the element it sits in, with its tag,
/// its decoded attributes, no text and no children; it stays charged for.
pub proof fn lemma_captured_element_round_trip(
    b: CaptureBuilder,
    b2: CaptureBuilder,
    b3: CaptureBuilder,
    tag: Seq<char>,
    raw: Seq<RawAttribute>,
)
    requires
        b.open_nodes().len() >= 1,
        pushed_element(b, b2, tag, raw),
        closed_in_capture(b2, b3),
    ensures
        b3.open_nodes().len() == b.open_nodes().len(),
        b3.open_nodes().drop_last() == b.open_nodes().drop_last(),
        b3.open_nodes().last().tag == b.open_nodes().last().tag,
        b3.open_nodes().last().attrs == b.open_nodes().last().attrs,
        b3.open_nodes().last().text == b.open_nodes().last().text,
        b3.open_nodes().last().children@.len() == b.open_nodes().last().children@.len() + 1,
        b3.open_nodes().last().children@.drop_last() == b.open_nodes().last().children@,
        b3.open_nodes().last().children@.last().tag@ == tag,
        decoded_attrs(b3.open_nodes().last().children@.last().attrs@, raw),
        b3.open_nodes().last().children@.last().text@.len() == 0,
        b3.open_nodes().last().children@.last().children@.len() == 0,
        b3.usage() == b.usage() + raw_element_cost(tag, raw),
{
    let s = b2.open_nodes();
    assert(s[s.len() - 2] == b.open_nodes().last());
    assert(b3.open_nodes().last().children@.drop_last() =~= b.open_nodes().last().children@);
}

/// A self-closing element `<t a="v"/>` does what `<t a="v"></t>` does: its
/// start followed by its end, and, when its start is refused, the same
/// refusal.
pub proof fn lemma_self_closing_is_start_then_end<'t, R: Rule>(
    s: StreamParser<'t, R>,
    s2: StreamParser<'t, R>,
    name: Vec<u8>,
    attrs: Vec<RawAttribute>,
    e: ReaderError,
)
    requires
        s.wf(),
    ensures
        StreamParser::event_outcome(s, s2, XmlEvent::Empty { name, attrs }, Ok(false)) <==> exists|
            mid: StreamParser<'t, R>,
        |
            {
                &&& #[trigger] StreamParser::event_outcome(
                    s,
                    mid,
                    XmlEvent::Start { name, attrs },
                    Ok(false),
                )
                &&& mid.wf()
                &&& StreamParser::event_outcome(mid, s2, XmlEvent::End, Ok(false))
            },
        StreamParser::event_outcome(s, s2, XmlEvent::Empty { name, attrs }, Err(e)) <==> exists|
            mid: StreamParser<'t, R>,
        | #[trigger] StreamParser::event_outcome(s, mid, XmlEvent::Start { name, attrs }, Err(e)),
{
    let empty = XmlEvent::Empty { name, attrs };
    let start = XmlEvent::Start { name, attrs };
    let ok = Ok::<(), ReaderError>(());
    let err = Err::<(), ReaderError>(e);
    if StreamParser::event_outcome(s, s2, empty, Ok(false)) {
        let mid = choose|mid: StreamParser<'t, R>|
            {
                &&& StreamParser::start_outcome(s, mid, name@, attrs@, ok)
                &&& mid.wf() && StreamParser::end_outcome(mid, s2)
            };
        assert(StreamParser::event_outcome(s, mid, start, Ok(false)));
    }
    if exists|mid: StreamParser<'t, R>|
        {
            &&& #[trigger] StreamParser::event_outcome(s, mid, start, Ok(false))
            &&& mid.wf()
            &&& StreamParser::event_outcome(mid, s2, XmlEvent::End, Ok(false))
        } {
        let mid = choose|mid: StreamParser<'t, R>|
            {
                &&& #[trigger] StreamParser::event_outcome(s, mid, start, Ok(false))
                &&& mid.wf()
                &&& StreamParser::event_outcome(mid, s2, XmlEvent::End, Ok(false))
            };
        assert(StreamParser::start_outcome(s, mid, name@, attrs@, ok));
    }
    if StreamParser::event_outcome(s, s2, empty, Err(e)) {
        let mid = choose|mid: StreamParser<'t, R>| StreamParser::start_outcome(s, mid, name@, attrs@, err);
        assert(StreamParser::event_outcome(s, mid, start, Err(e)));
    }
    if exists|mid: StreamParser<'t, R>| #[trigger] StreamParser::event_outcome(s, mid, start, Err(e)) {
        let mid = choose|mid: StreamParser<'t, R>| #[trigger] StreamParser::event_outcome(s, mid, start, Err(e));
        assert(StreamParser::start_outcome(s, mid, name@, attrs@, err));
    }
}

/// Only the end of an element reports: opening an element, text, the end
/// of the input and ignored events emit no diagnostic.
pub proof fn lemma_only_end_tags_report<'t, R: Rule>(
    s: StreamParser<'t, R>,
    s2: StreamParser<'t, R>,
    ev: XmlEvent,
    r: Result<bool, ReaderError>,
)
    requires
        s.wf(),
        StreamParser::event_outcome(s, s2, ev, r),
        r is Ok,
        !(ev is End),
        !(ev is Empty),
    ensures
        s2.emitted() == s.emitted(),
        s2.ready() == s.ready(),
{
}

/// Closing the innermost frame reads nothing of the parser's state but its
/// tree, frames, counters and diagnostics.
proof fn lemma_closed_frame_same_state<'t, R: Rule>(
    s: StreamParser<'t, R>,
    t: StreamParser<'t, R>,
    s2: StreamParser<'t, R>,
    captured: Option<SubtreeNode>,
)
    requires
        StreamParser::closed_frame(s, s2, captured),
        t.tree() == s.tree(),
        t.frames() == s.frames(),
        t.counters() == s.counters(),
        t.emitted() == s.emitted(),
        t.pending_len() == s.pending_len(),
    ensures
        StreamParser::closed_frame(t, s2, captured),
{
    let f = s.frames();
    let node = s.tree().nodes@[f.last().descriptor_id.0 as int];
    let (v, outs, rr) = choose|v: &dyn NodeAccess, outs: Seq<Vec<Diagnostic>>, rr: RuleResults|
        {
            &&& v.spec_tag() == StreamParser::closed_tag(s, captured)
            &&& v.spec_attrs() == StreamParser::closed_attrs(s, captured)
            &&& v.spec_text() == StreamParser::closed_text(s, captured)
            &&& v.spec_children() == StreamParser::closed_children(s, captured)
            &&& v.spec_subtree() == captured
            &&& v.spec_element_index() == f.last().index
            &&& v.spec_path() == s.tree().path_of(f.last().descriptor_id.0 as int)
            &&& v.spec_ancestors() == f.drop_last()
            &&& forall|k: int|
                0 <= k < outs.len() ==> call_ensures(
                    R::evaluate,
                    (&node.rules@[k], v),
                    #[trigger] outs[k],
                )
            &&& StreamParser::closed_with(s, s2, captured, outs, rr)
        };
    assert(StreamParser::closed_with(t, s2, captured, outs, rr));
    assert(v.spec_tag() == StreamParser::closed_tag(t, captured));
}

/// `s` is a parser for `t` before any event.
pub open spec fn fresh_parser<'t, R: Rule>(s: StreamParser<'t, R>, t: DescriptorTree<R>) -> bool {
    &&& s.wf()
    &&& s.tree() == t
    &&& s.frames().len() == 0
    &&& s.skip() == 0
    &&& s.mode() == ModeView::Streaming
    &&& s.counters().len() == 0
    &&& s.emitted().len() == 0
    &&& s.ready().len() == 0
    &&& s.pending_len() == 0
}

/// `s2` is `s` after its ready diagnostics were handed out.
pub open spec fn after_take<'t, R: Rule>(s: StreamParser<'t, R>, s2: StreamParser<'t, R>) -> bool {
    &&& s2.wf()
    &&& s2.tree() == s.tree()
    &&& s2.frames() == s.frames()
    &&& s2.counters() == s.counters()
    &&& s2.mode() == s.mode()
    &&& s2.skip() == s.skip()
    &&& s2.emitted() == s.emitted().skip(s.ready().len() as int)
    &&& s2.ready().len() == 0
    &&& s2.pending_len() == s.pending_len()
}

/// The ready diagnostics of the states `ms`, one list after the other.
pub open spec fn readies<'t, R: Rule>(ms: Seq<StreamParser<'t, R>>) -> Seq<Diagnostic>
    decreases ms.len(),
{
    if ms.len() == 0 {
        Seq::empty()
    } else {
        readies(ms.drop_last()) + ms.last().ready()
    }
}

/// A run of the parser over the events `evs`: event `i` takes state
/// `ps[i]` to `ms[i]` without ending the input, and handing out the ready
/// diagnostics of `ms[i]` gives `ps[i + 1]`.
pub open spec fn run_of<'t, R: Rule>(
    ps: Seq<StreamParser<'t, R>>,
    ms: Seq<StreamParser<'t, R>>,
    evs: Seq<XmlEvent>,
) -> bool {
    &&& ps.len() == ms.len() + 1
    &&& evs.len() == ms.len()
    &&& forall|i: int|
        0 <= i < ms.len() ==> {
            &&& StreamParser::event_outcome(ps[i], #[trigger] ms[i], evs[i], Ok(false))
            &&& ms[i].wf()
            &&& after_take(ms[i], ps[i + 1])
        }
}

/// `evs` are the first events that the tokenizer hands out over `text`,
/// trimmed, in order.
pub open spec fn tokens_of(text: Seq<char>, evs: Seq<XmlEvent>) -> bool {
    forall|i: int| 0 <= i < evs.len() ==> xml_event_at(text, true, i as nat) == Ok::<XmlEvent, quick_xml::Error>(#[trigger] evs[i])
}

/// What validating the document `text` against `t` gives. A fresh parser
/// runs over the events that the tokenizer hands out over `text` (text
/// trimmed), in order, handing out its ready diagnostics after each: `diags`
/// are those handed out along the way and,
/// - at the end of the input (or after `u64::MAX` events), all the rest,
///   with `Ok`;
/// - after an error of the tokenizer, nothing more, with that error as
///   `XmlParse`;
/// - after an event that the parser refuses, nothing more, with the
///   parser's error.
pub open spec fn parse_outcome<'t, R: Rule>(
    t: &'t DescriptorTree<R>,
    text: Seq<char>,
    diags: Seq<Diagnostic>,
    result: Result<(), ReaderError>,
) -> bool {
    exists|ps: Seq<StreamParser<'t, R>>, ms: Seq<StreamParser<'t, R>>, evs: Seq<XmlEvent>|
        #![trigger run_of(ps, ms, evs)]
        {
            let n = evs.len();
            &&& run_of(ps, ms, evs)
            &&& tokens_of(text, evs)
            &&& fresh_parser(ps[0], *t)
            &&& match result {
                Ok(()) => {
                    &&& xml_event_at(text, true, n) == Ok::<XmlEvent, quick_xml::Error>(XmlEvent::Eof)
                        || n == u64::MAX
                    &&& diags == readies(ms) + ps.last().emitted()
                },
                Err(e) => {
                    &&& diags == readies(ms)
                    &&& match xml_event_at(text, true, n) {
                        Err(x) => e == ReaderError::XmlParse { source: x },
                        Ok(ev) => exists|s2: StreamParser<'t, R>|
                            StreamParser::event_outcome(ps.last(), s2, ev, Err(e)),
                    }
                },
            }
        }
}

proof fn lemma_run_extend<'t, R: Rule>(
    ps: Seq<StreamParser<'t, R>>,
    ms: Seq<StreamParser<'t, R>>,
    evs: Seq<XmlEvent>,
    m: StreamParser<'t, R>,
    p: StreamParser<'t, R>,
    ev: XmlEvent,
)
    requires
        run_of(ps, ms, evs),
        StreamParser::event_outcome(ps.last(), m, ev, Ok(false)),
        m.wf(),
        after_take(m, p),
    ensures
        run_of(ps.push(p), ms.push(m), evs.push(ev)),
        readies(ms.push(m)) == readies(ms) + m.ready(),
        ps.push(p)[0] == ps[0],
{
    let ps2 = ps.push(p);
    let ms2 = ms.push(m);
    let evs2 = evs.push(ev);
    assert(ms2.drop_last() =~= ms);
    assert forall|i: int| 0 <= i < ms2.len() implies {
        &&& StreamParser::event_outcome(ps2[i], #[trigger] ms2[i], evs2[i], Ok(false))
        &&& ms2[i].wf()
        &&& after_take(ms2[i], ps2[i + 1])
    } by {
        if i < ms.len() {
            assert(ms2[i] == ms[i]);
            assert(ps2[i] == ps[i]);
            assert(ps2[i + 1] == ps[i + 1]);
            assert(evs2[i] == evs[i]);
        } else {
            assert(ps2[i] == ps.last());
        }
    }
}

/// Validates the XML document `data` against `tree`.
///
/// Returns the diagnostics that reached the output, in order, and how the
/// parse ended. Input that is not UTF-8 is refused before any event. On an
/// error, only the diagnostics handed out in full batches before it come
/// back; at the end of the input, all of them.
pub fn parse_slice<'t, R: Rule>(data: &[u8], tree: &'t DescriptorTree<R>) -> (r: (
    Vec<Diagnostic>,
    Result<(), ReaderError>,
))
    requires
        tree.wf(),
        tree.rules_fit(),
    ensures
        !vstd::utf8::valid_utf8(data@) ==> r.0@.len() == 0 && r.1 matches Err(
            ReaderError::Utf8 { .. },
        ),
        vstd::utf8::valid_utf8(data@) ==> parse_outcome(
            tree,
            vstd::utf8::decode_utf8(data@),
            r.0@,
            r.1,
        ),
{
    let text = match str_from_utf8(data) {
        Ok(t) => t,
        Err(e) => {
            return (Vec::new(), Err(ReaderError::Utf8 { source: e }));
        },
    };
    let ghost doc = text@;
    let mut tokens = XmlTokens::from_str(text);
    tokens.set_trim_text(true);
    let mut parser = StreamParser::new(tree);
    let mut out: Vec<Diagnostic> = Vec::new();
    let ghost mut ps: Seq<StreamParser<'t, R>> = seq![parser];
    let ghost mut ms: Seq<StreamParser<'t, R>> = Seq::empty();
    let ghost mut evs: Seq<XmlEvent> = Seq::empty();
    // A document yields fewer events than it has bytes; the budget only
    // gives the loop a measure.
    let mut budget: u64 = u64::MAX;
    let mut ended = false;
    while budget > 0 && !ended
        invariant
            parser.wf(),
            parser.tree() == *tree,
            vstd::utf8::valid_utf8(data@),
            doc == vstd::utf8::decode_utf8(data@),
            tokens.text() == doc,
            tokens.trim(),
            tokens.count() == evs.len() + if ended { 1nat } else { 0nat },
            evs.len() + budget + if ended { 1nat } else { 0nat } == u64::MAX,
            ended ==> xml_event_at(doc, true, evs.len()) == Ok::<XmlEvent, quick_xml::Error>(XmlEvent::Eof),
            tokens_of(doc, evs),
            run_of(ps, ms, evs),
            fresh_parser(ps[0], *tree),
            ps.last() == parser,
            out@ == readies(ms),
        decreases budget,
    {
        budget = budget - 1;
        let ev = match tokens.next_event() {
            Ok(ev) => ev,
            Err(e) => {
                let err = ReaderError::XmlParse { source: e };
                proof {
                    assert(parse_outcome(tree, doc, out@, Err(err)));
                }
                return (out, Err(err));
            },
        };
        let ghost gev = ev;
        let ghost before = parser;
        match parser.handle_event(ev) {
            Ok(true) => {
                ended = true;
            },
            Ok(false) => {},
            Err(e) => {
                proof {
                    assert(StreamParser::event_outcome(before, parser, gev, Err(e)));
                    assert(parse_outcome(tree, doc, out@, Err(e)));
                }
                return (out, Err(e));
            },
        }
        if !ended {
            let ghost mid = parser;
            let mut ready = parser.take_ready();
            out.append(&mut ready);
            proof {
                lemma_run_extend(ps, ms, evs, mid, parser, gev);
                assert(tokens_of(doc, evs.push(gev))) by {
                    assert forall|i: int| 0 <= i < evs.len() + 1 implies xml_event_at(doc, true, i as nat)
                        == Ok::<XmlEvent, quick_xml::Error>(#[trigger] evs.push(gev)[i]) by {
                        if i < evs.len() {
                            assert(evs.push(gev)[i] == evs[i]);
                        }
                    }
                }
                ps = ps.push(parser);
                ms = ms.push(mid);
                evs = evs.push(gev);
            }
        }
    }
    let mut rest = parser.finish();
    out.append(&mut rest);
    proof {
        assert(parse_outcome(tree, doc, out@, Ok(())));
    }
    (out, Ok(()))
}

} // verus!
