use xml_oxydizer::diagnostic::{Diagnostic, Severity};
use xml_oxydizer::error::{BuilderError, ReaderError};
use xml_oxydizer::reader::capture::CaptureBuilder;
use xml_oxydizer::reader::context::{AttrPool, ContextPool};
use xml_oxydizer::reader::events::XmlEvent;
use xml_oxydizer::reader::parser::{hash_tag, parse_slice, StreamParser, DIAG_BUFFER_DEFAULT};
use xml_oxydizer::rule::{NodeAccess, Rule};
use xml_oxydizer::tree::builder::TreeBuilder;
use xml_oxydizer::tree::descriptor::{AccessMode, DescriptorTree, NodeNeeds};
use xml_oxydizer::tree::path::{copy_path, format_path, paths_equal, str_eq, NodeId, PathSegment};
use xml_oxydizer::view::{ChildSummary, RuleResults, StreamingView, SubtreeNode, SubtreeView};

/// Reports one diagnostic per element it sees, naming the element's index.
struct Always {
    needs: NodeNeeds,
}

impl Rule for Always {
    fn name(&self) -> &str {
        "always"
    }
    fn needs(&self) -> NodeNeeds {
        self.needs
    }
    fn evaluate(&self, node: &dyn NodeAccess) -> Vec<Diagnostic> {
        vec![Diagnostic {
            rule_name: "always".to_owned(),
            message: format!("{}:{}:{}", node.tag(), node.element_index(), node.text()),
            element_path: node.path().to_vec(),
            element_index: node.element_index() as u32,
            severity: Severity::Warning,
        }]
    }
}

/// Reports nothing.
struct Quiet;

impl Rule for Quiet {
    fn name(&self) -> &str {
        "quiet"
    }
    fn needs(&self) -> NodeNeeds {
        NodeNeeds::empty()
    }
    fn evaluate(&self, _node: &dyn NodeAccess) -> Vec<Diagnostic> {
        vec![]
    }
}

/// Describes the children summaries it sees, one diagnostic each.
struct Children;

impl Rule for Children {
    fn name(&self) -> &str {
        "children"
    }
    fn needs(&self) -> NodeNeeds {
        NodeNeeds::children()
    }
    fn evaluate(&self, node: &dyn NodeAccess) -> Vec<Diagnostic> {
        node.children_summaries()
            .iter()
            .map(|c| Diagnostic {
                rule_name: "children".to_owned(),
                message: format!(
                    "{}:{}:{}:{}:{}",
                    c.descriptor_id.0,
                    c.index,
                    c.attr("id").unwrap_or("-"),
                    c.text,
                    c.rule_results.0
                ),
                element_path: node.path().to_vec(),
                element_index: node.element_index() as u32,
                severity: Severity::Info,
            })
            .collect()
    }
}

fn boxed<T: Rule + 'static>(rule: T) -> Box<dyn Rule> {
    Box::new(rule)
}

fn messages(diags: &[Diagnostic]) -> Vec<String> {
    diags.iter().map(|d| d.message.clone()).collect()
}

fn start(name: &str, attrs: &[(&str, &str)]) -> XmlEvent {
    XmlEvent::Start {
        name: name.as_bytes().to_vec(),
        attrs: attrs
            .iter()
            .map(|(k, v)| Ok((k.as_bytes().to_vec(), v.as_bytes().to_vec())))
            .collect(),
    }
}

fn text(s: &str) -> XmlEvent {
    XmlEvent::Text { content: Ok(s.to_owned()) }
}

fn seg(s: &str) -> PathSegment {
    PathSegment(s.to_owned())
}

// --- hashing and sibling indices ---

#[test]
fn hash_tag_is_fnv1a() {
    assert_eq!(hash_tag(""), 0xcbf2_9ce4_8422_2325);
    assert_eq!(hash_tag("a"), 0xaf63_dc4c_8601_ec8c);
    assert_eq!(hash_tag("foobar"), 0x8594_4171_f739_67e8);
}

#[test]
fn element_index_follows_document_order_per_tag() {
    let tree = TreeBuilder::<Box<dyn Rule>>::new("root")
        .node("a")
        .rule(boxed(Always { needs: NodeNeeds::empty() }))
        .done()
        .node("b")
        .rule(boxed(Always { needs: NodeNeeds::empty() }))
        .done()
        .build()
        .unwrap();
    let (diags, r) = parse_slice(b"<root><a/><b/><a></a><b/><a/></root>", &tree);
    assert!(r.is_ok());
    assert_eq!(messages(&diags), vec!["a:0:", "b:0:", "a:1:", "b:1:", "a:2:"]);
}

// --- rule results ---

#[test]
fn rule_results_bits() {
    let mut r = RuleResults::empty();
    assert_eq!(r.0, 0);
    r.set(0, true);
    r.set(1, false);
    r.set(2, true);
    assert_eq!(r.0, 0b101);
    assert!(r.get(0));
    assert!(!r.get(1));
    assert!(r.get(2));
    assert!(!r.get(63));
    assert!(r.all_passed(0));
    assert!(r.all_passed(1));
    assert!(!r.all_passed(2));
    assert!(!r.all_passed(3));
    assert!(RuleResults(u64::MAX).all_passed(64));
    assert!(RuleResults(u64::MAX).all_passed(1000));
    assert!(!RuleResults(u64::MAX >> 1).all_passed(64));
    assert!(RuleResults(u64::MAX >> 1).all_passed(63));
}

// --- paths ---

#[test]
fn format_path_joins_with_slashes() {
    assert_eq!(format_path(&[]), "");
    assert_eq!(format_path(&[seg("x")]), "x");
    assert_eq!(format_path(&[seg("a"), seg("b"), seg("c")]), "a/b/c");
    assert_eq!(NodeId(7).index(), 7);
}

// --- builder ---

#[test]
fn builder_reports_duplicate_path() {
    let r = TreeBuilder::<Box<dyn Rule>>::new("root")
        .node("a")
        .done()
        .node("a")
        .done()
        .build();
    match r {
        Err(BuilderError::DuplicatePath { path }) => assert_eq!(path, "root/a"),
        other => panic!("{:?}", other.err()),
    }
}

#[test]
fn builder_duplicate_reported_before_incompatible() {
    let r = TreeBuilder::<Box<dyn Rule>>::new("root")
        .rule(boxed(Always { needs: NodeNeeds::capture() }))
        .node("a")
        .done()
        .node("a")
        .done()
        .build();
    assert!(matches!(r, Err(BuilderError::DuplicatePath { .. })));
}

#[test]
fn builder_reports_incompatible_rule_and_node() {
    let r = TreeBuilder::<Box<dyn Rule>>::new("root")
        .node("a")
        .rule(boxed(Quiet))
        .rule(boxed(Always { needs: NodeNeeds::capture() }))
        .done()
        .build();
    match r {
        Err(BuilderError::IncompatibleAccessMode { node_path, rule_name }) => {
            assert_eq!(node_path, "root/a");
            assert_eq!(rule_name, "always");
        }
        other => panic!("{:?}", other.err()),
    }
}

#[test]
fn builder_reports_nested_capture_with_nearest_outer() {
    let r = TreeBuilder::<Box<dyn Rule>>::new("root")
        .capture_subtree()
        .node("mid")
        .node("inner")
        .capture_subtree()
        .done()
        .done()
        .build();
    match r {
        Err(BuilderError::NestedCapture { inner, outer }) => {
            assert_eq!(inner, "root/mid/inner");
            assert_eq!(outer, "root");
        }
        other => panic!("{:?}", other.err()),
    }
}

#[test]
fn builder_computes_needs_and_links() {
    let tree = TreeBuilder::<Box<dyn Rule>>::new("root")
        .rule(boxed(Children))
        .node("a")
        .capture_subtree()
        .done()
        .node("b")
        .rule(boxed(Always { needs: NodeNeeds::text() }))
        .done()
        .capture_limit(1234)
        .build()
        .unwrap();
    assert_eq!(tree.nodes.len(), 3);
    assert_eq!(tree.root_id(), Some(NodeId(0)));
    assert_eq!(tree.capture_memory_limit, 1234);
    // root: its rule reads children, and it has children (attrs + text).
    assert_eq!(tree.nodes[0].needs.0, 4 | 3);
    assert_eq!(tree.nodes[0].summary_needs.0, 0);
    assert_eq!(tree.nodes[0].child_ids, vec![NodeId(1), NodeId(2)]);
    assert_eq!(tree.nodes[1].needs.0, 8);
    assert_eq!(tree.nodes[1].access_mode, AccessMode::CaptureSubtree);
    assert_eq!(tree.nodes[1].parent_id, Some(NodeId(0)));
    // the parent reads children, so each child keeps everything for its summary.
    assert_eq!(tree.nodes[1].summary_needs.0, 7);
    assert_eq!(tree.nodes[2].needs.0, 2);
    assert_eq!(tree.nodes[2].summary_needs.0, 7);
    assert_eq!(tree.child_of(NodeId(0), "b"), Some(NodeId(2)));
    assert_eq!(tree.child_of(NodeId(0), "c"), None);
    assert_eq!(format_path(&tree.get(NodeId(2)).full_path), "root/b");
}

#[test]
fn builder_default_limit_is_64_mib() {
    let tree = TreeBuilder::<Box<dyn Rule>>::new("root").build().unwrap();
    assert_eq!(tree.capture_memory_limit, 64 * 1024 * 1024);
    assert_eq!(tree.nodes[0].needs.0, 0);
}

// --- capture ---

#[test]
fn capture_builder_charges_and_nests() {
    let node = std::mem::size_of::<SubtreeNode>();
    let attrs = vec![("id".to_owned(), "7".to_owned())];
    let first = node + 3 + (2 + 1 + 64);
    let mut b = CaptureBuilder::new(first + node + 4 + 5, "doc/sec".to_owned());
    assert!(b.start_element("sec", attrs).is_ok());
    assert!(b.start_element("item", vec![]).is_ok());
    assert!(b.text("hello").is_ok());
    assert!(b.text("").is_ok());
    b.end_element();
    assert_eq!(b.open_count(), 1);
    // one byte more than the limit
    match b.text("x") {
        Err(ReaderError::CaptureOverflow { path, limit }) => {
            assert_eq!(path, "doc/sec");
            assert_eq!(limit, first + node + 4 + 5);
        }
        other => panic!("{:?}", other),
    }
    b.end_element();
    let root = b.finalize();
    assert_eq!(root.tag, "sec");
    assert_eq!(root.attr("id"), Some("7"));
    assert_eq!(root.children.len(), 1);
    assert_eq!(root.children[0].tag, "item");
    assert_eq!(root.children[0].text, "hello");
}

#[test]
fn capture_limit_is_inclusive() {
    let node = std::mem::size_of::<SubtreeNode>();
    let mut exact = CaptureBuilder::new(node + 1, String::new());
    assert!(exact.start_element("a", vec![]).is_ok());
    let mut short = CaptureBuilder::new(node, String::new());
    assert!(matches!(
        short.start_element("a", vec![]),
        Err(ReaderError::CaptureOverflow { .. })
    ));
}

// --- subtree queries ---

fn leaf(tag: &str) -> SubtreeNode {
    SubtreeNode { tag: tag.to_owned(), attrs: vec![], text: String::new(), children: vec![] }
}

#[test]
fn subtree_find_and_find_all_in_document_order() {
    let mut x1 = leaf("x");
    x1.text = "first".to_owned();
    let mut y = leaf("y");
    y.children.push(x1);
    let mut x2 = leaf("x");
    x2.text = "second".to_owned();
    let mut root = leaf("r");
    root.children.push(y);
    root.children.push(x2);
    let tags: Vec<&str> = {
        let mut it = root.descendants();
        let mut out = Vec::new();
        while let Some(n) = it.next() {
            out.push(n.tag.as_str());
        }
        out
    };
    assert_eq!(tags, vec!["y", "x", "x"]);
    let all = root.find_all("x");
    assert_eq!(all.len(), 2);
    assert_eq!(all[0].text, "first");
    assert_eq!(all[1].text, "second");
    assert_eq!(root.find("x").map(|n| n.text.as_str()), Some("first"));
    assert!(root.find("r").is_none());
    assert!(root.find_all("z").is_empty());
}

// --- pools ---

#[test]
fn context_pool_hands_out_fresh_frames() {
    let mut pool = ContextPool::new();
    let mut c = pool.acquire(NodeId(3), vec![("k".to_owned(), "v".to_owned())], 2);
    c.text.push_str("t");
    pool.release(c);
    let d = pool.acquire(NodeId(4), vec![], 5);
    assert_eq!(d.descriptor_id, NodeId(4));
    assert_eq!(d.index, 5);
    assert!(d.attrs.is_empty());
    assert!(d.text.is_empty());
    assert!(d.children.is_empty());
    let mut a = AttrPool::new();
    assert!(a.acquire().is_empty());
}

// --- the engine, event by event ---

#[test]
fn engine_tracks_frames_and_skips_undeclared() {
    let tree = TreeBuilder::<Box<dyn Rule>>::new("root")
        .rule(boxed(Children))
        .node("item")
        .rule(boxed(Always { needs: NodeNeeds::text() }))
        .done()
        .build()
        .unwrap();
    let mut p = StreamParser::new(&tree);
    assert_eq!(p.handle_event(start("root", &[])).unwrap(), false);
    assert_eq!(p.handle_event(start("other", &[])).unwrap(), false);
    // an `item` inside an undeclared element is skipped with it
    assert_eq!(p.handle_event(start("item", &[])).unwrap(), false);
    assert_eq!(p.handle_event(XmlEvent::End).unwrap(), false);
    assert_eq!(p.handle_event(XmlEvent::End).unwrap(), false);
    assert_eq!(p.handle_event(start("item", &[("id", "a")])).unwrap(), false);
    assert_eq!(p.handle_event(text("hi")).unwrap(), false);
    assert_eq!(p.handle_event(text(" there")).unwrap(), false);
    assert_eq!(p.handle_event(XmlEvent::End).unwrap(), false);
    assert_eq!(
        p.handle_event(XmlEvent::Empty { name: b"item".to_vec(), attrs: vec![] }).unwrap(),
        false
    );
    assert_eq!(p.handle_event(XmlEvent::Other).unwrap(), false);
    assert_eq!(p.handle_event(XmlEvent::End).unwrap(), false);
    assert_eq!(p.handle_event(XmlEvent::Eof).unwrap(), true);
    let diags = p.finish();
    // children summaries keep attributes and text (the root reads children),
    // and record that `always` failed (bit 0 clear).
    assert_eq!(
        messages(&diags),
        vec!["item:0:hi there", "item:1:", "1:0:a:hi there:0", "1:1:-::0"]
    );
}

#[test]
fn engine_rejects_non_utf8_names_only_when_not_skipping() {
    let tree = TreeBuilder::<Box<dyn Rule>>::new("root").build().unwrap();
    let mut p = StreamParser::new(&tree);
    let bad = XmlEvent::Start { name: vec![0xff, 0xfe], attrs: vec![] };
    assert!(matches!(p.handle_event(bad), Err(ReaderError::Utf8 { .. })));

    let mut q = StreamParser::new(&tree);
    q.handle_event(start("root", &[])).unwrap();
    q.handle_event(start("other", &[])).unwrap();
    let bad = XmlEvent::Start { name: vec![0xff], attrs: vec![] };
    assert_eq!(q.handle_event(bad).unwrap(), false);
}

#[test]
fn engine_reads_attributes_only_when_needed() {
    let bad_attr = || XmlEvent::Start {
        name: b"root".to_vec(),
        attrs: vec![
            Ok((b"a".to_vec(), b"1".to_vec())),
            Ok((b"b".to_vec(), vec![0xc3])),
        ],
    };
    let quiet = TreeBuilder::<Box<dyn Rule>>::new("root").rule(boxed(Quiet)).build().unwrap();
    let mut p = StreamParser::new(&quiet);
    assert_eq!(p.handle_event(bad_attr()).unwrap(), false);

    let reads = TreeBuilder::<Box<dyn Rule>>::new("root")
        .rule(boxed(Always { needs: NodeNeeds::attrs() }))
        .build()
        .unwrap();
    let mut q = StreamParser::new(&reads);
    assert!(matches!(q.handle_event(bad_attr()), Err(ReaderError::Utf8 { .. })));
}

#[test]
fn engine_reports_tokenizer_attribute_errors() {
    let reads = TreeBuilder::<Box<dyn Rule>>::new("root")
        .rule(boxed(Always { needs: NodeNeeds::attrs() }))
        .build()
        .unwrap();
    let mut q = StreamParser::new(&reads);
    let ev = XmlEvent::Start {
        name: b"root".to_vec(),
        attrs: vec![Err(quick_xml::Error::from(quick_xml::events::attributes::AttrError::ExpectedEq(3)))],
    };
    assert!(matches!(q.handle_event(ev), Err(ReaderError::XmlParse { .. })));
}

#[test]
fn engine_decoding_error_matters_only_for_read_text() {
    let err = || XmlEvent::Text {
        content: Err(quick_xml::Error::from(quick_xml::errors::IllFormedError::MissingDeclVersion(None))),
    };
    let quiet = TreeBuilder::<Box<dyn Rule>>::new("root").rule(boxed(Quiet)).build().unwrap();
    let mut p = StreamParser::new(&quiet);
    p.handle_event(start("root", &[])).unwrap();
    assert_eq!(p.handle_event(err()).unwrap(), false);

    let reads = TreeBuilder::<Box<dyn Rule>>::new("root")
        .rule(boxed(Always { needs: NodeNeeds::text() }))
        .build()
        .unwrap();
    let mut q = StreamParser::new(&reads);
    q.handle_event(start("root", &[])).unwrap();
    assert!(matches!(q.handle_event(err()), Err(ReaderError::XmlParse { .. })));
}

#[test]
fn engine_hands_out_diagnostics_in_batches() {
    let tree = TreeBuilder::<Box<dyn Rule>>::new("root")
        .node("i")
        .rule(boxed(Always { needs: NodeNeeds::empty() }))
        .done()
        .build()
        .unwrap();
    let mut p = StreamParser::new(&tree);
    p.handle_event(start("root", &[])).unwrap();
    let mut taken = Vec::new();
    for k in 0..300 {
        p.handle_event(XmlEvent::Empty { name: b"i".to_vec(), attrs: vec![] }).unwrap();
        let ready = p.take_ready();
        if k + 1 == DIAG_BUFFER_DEFAULT {
            assert_eq!(ready.len(), DIAG_BUFFER_DEFAULT);
        } else {
            assert!(ready.is_empty());
        }
        taken.extend(ready);
    }
    p.handle_event(XmlEvent::End).unwrap();
    let rest = p.finish();
    assert_eq!(rest.len(), 300 - DIAG_BUFFER_DEFAULT);
    taken.extend(rest);
    assert_eq!(taken.len(), 300);
    assert_eq!(taken[299].element_index, 299);
}

// --- whole documents ---

#[test]
fn parse_slice_refuses_non_utf8_input() {
    let tree = TreeBuilder::<Box<dyn Rule>>::new("root").build().unwrap();
    let (diags, r) = parse_slice(&[b'<', 0xff, b'>'], &tree);
    assert!(diags.is_empty());
    assert!(matches!(r, Err(ReaderError::Utf8 { .. })));
}

#[test]
fn parse_slice_keeps_only_full_batches_on_error() {
    let tree: DescriptorTree<Box<dyn Rule>> = TreeBuilder::new("root")
        .node("i")
        .rule(boxed(Always { needs: NodeNeeds::empty() }))
        .done()
        .build()
        .unwrap();
    let mut xml = String::from("<root>");
    for _ in 0..300 {
        xml.push_str("<i/>");
    }
    xml.push_str("</oops>");
    let (diags, r) = parse_slice(xml.as_bytes(), &tree);
    assert!(matches!(r, Err(ReaderError::XmlParse { .. })));
    assert_eq!(diags.len(), DIAG_BUFFER_DEFAULT);

    let ok = xml.replace("</oops>", "</root>");
    let (diags, r) = parse_slice(ok.as_bytes(), &tree);
    assert!(r.is_ok());
    assert_eq!(diags.len(), 300);
}

#[test]
fn parse_slice_refuses_another_root() {
    let tree = TreeBuilder::<Box<dyn Rule>>::new("root")
        .rule(boxed(Always { needs: NodeNeeds::empty() }))
        .build()
        .unwrap();
    let (diags, r) = parse_slice(b"<doc><root/></doc>", &tree);
    assert!(diags.is_empty());
    match r {
        Err(ReaderError::RootMismatch { expected, found }) => {
            assert_eq!(expected, "root");
            assert_eq!(found, "doc");
        }
        other => panic!("{:?}", other),
    }
    let streaming = TreeBuilder::<Box<dyn Rule>>::new("root").streaming().build().unwrap();
    let (diags, r) = parse_slice(b"<other/>", &streaming);
    assert!(diags.is_empty());
    assert!(matches!(r, Err(ReaderError::RootMismatch { .. })));
}

#[test]
fn captured_text_reaches_summary_and_rules_see_subtree() {
    let tree = TreeBuilder::<Box<dyn Rule>>::new("root")
        .rule(boxed(Children))
        .node("sec")
        .capture_subtree()
        .rule(boxed(Always { needs: NodeNeeds::capture() }))
        .done()
        .build()
        .unwrap();
    let (diags, r) = parse_slice(br#"<root><sec id="s">top<x>inner</x></sec></root>"#, &tree);
    assert!(r.is_ok());
    assert_eq!(messages(&diags), vec!["sec:0:top", "1:0:s:top:0"]);
}

// --- paths and views ---

#[test]
fn path_helpers_compare_and_copy() {
    assert!(str_eq("abc", "abc"));
    assert!(!str_eq("abc", "abd"));
    assert!(!str_eq("ab", "abc"));
    assert!(str_eq("", ""));
    let p = vec![seg("a"), seg("b")];
    let q = copy_path(&p);
    assert!(paths_equal(&p, &q));
    assert!(!paths_equal(&p, &q[..1]));
    assert!(!paths_equal(&p, &[seg("a"), seg("c")]));
    assert!(PathSegment::new("x").same_as(&seg("x")));
    assert_eq!(seg("y").duplicate().as_str(), "y");
}

fn frame(id: u32, attrs: &[(&str, &str)], text: &str, index: u32) -> xml_oxydizer::reader::context::NodeContext {
    xml_oxydizer::reader::context::NodeContext {
        attrs: attrs.iter().map(|(k, v)| (k.to_string(), v.to_string())).collect(),
        text: text.to_owned(),
        children: vec![],
        descriptor_id: NodeId(id),
        index,
    }
}

#[test]
fn streaming_view_reads_frame_and_ancestors() {
    let tree = TreeBuilder::<Box<dyn Rule>>::new("root").node("item").done().build().unwrap();
    let frames = vec![
        frame(0, &[("version", "3")], "top", 0),
        frame(1, &[("id", "a"), ("id", "b")], "t", 4),
    ];
    let v = StreamingView::new(&frames, 1, &tree);
    assert_eq!(v.tag(), "item");
    assert_eq!(v.attr("id"), Some("a"));
    assert_eq!(v.attr("nope"), None);
    assert_eq!(v.attributes().len(), 2);
    assert_eq!(v.text(), "t");
    assert_eq!(v.element_index(), 4);
    assert_eq!(format_path(v.path()), "root/item");
    assert!(v.children_summaries().is_empty());
    assert!(v.subtree().is_none());
    assert_eq!(v.depth(), 1);
    assert_eq!(v.ancestor_attr(0, "version"), Some("3"));
    assert_eq!(v.ancestor_attr(1, "version"), None);
    assert_eq!(v.ancestor_text(0), Some("top"));
    assert_eq!(v.ancestor_children(0).map(|c| c.len()), Some(0));
    assert!(v.ancestor_children(1).is_none());
    let p = v.parent().unwrap();
    assert_eq!(p.tag(), "root");
    assert!(p.parent().is_none());
}

#[test]
fn subtree_view_reads_captured_root() {
    let tree = TreeBuilder::<Box<dyn Rule>>::new("root")
        .node("sec")
        .capture_subtree()
        .done()
        .build()
        .unwrap();
    let parents = vec![frame(0, &[("v", "1")], "", 0)];
    let mut root = leaf("sec");
    root.attrs.push(("k".to_owned(), "w".to_owned()));
    root.text = "body".to_owned();
    root.children.push(leaf("x"));
    let v = SubtreeView::new(&root, NodeId(1), 2, &parents, &tree);
    assert_eq!(v.tag(), "sec");
    assert_eq!(v.attr("k"), Some("w"));
    assert_eq!(v.attributes().len(), 1);
    assert_eq!(v.text(), "body");
    assert_eq!(v.element_index(), 2);
    assert_eq!(format_path(v.path()), "root/sec");
    assert!(v.children_summaries().is_empty());
    assert_eq!(v.subtree().map(|s| s.children.len()), Some(1));
    assert_eq!(v.depth(), 1);
    assert_eq!(v.ancestor_attr(0, "v"), Some("1"));
    assert_eq!(v.ancestor_text(1), None);
}

#[test]
fn child_summary_tag_comes_from_the_tree() {
    let tree = TreeBuilder::<Box<dyn Rule>>::new("root").node("item").done().build().unwrap();
    let c = ChildSummary {
        attrs: vec![("id".to_owned(), "7".to_owned())],
        text: String::new(),
        descriptor_id: NodeId(1),
        index: 0,
        rule_results: RuleResults::empty(),
    };
    assert_eq!(c.tag(&tree), "item");
    assert_eq!(c.attr("id"), Some("7"));
    assert_eq!(tree.root().map(|n| n.tag.as_str()), Some("root"));
}

// --- laws, on concrete values ---

/// Describes what the view shows: tag, sibling index, depth and declared path.
struct Where;

impl Rule for Where {
    fn name(&self) -> &str {
        "where"
    }
    fn needs(&self) -> NodeNeeds {
        NodeNeeds::empty()
    }
    fn evaluate(&self, node: &dyn NodeAccess) -> Vec<Diagnostic> {
        vec![Diagnostic {
            rule_name: "where".to_owned(),
            message: format!(
                "{}@{}#{}:{}",
                node.tag(),
                node.depth(),
                node.element_index(),
                format_path(node.path())
            ),
            element_path: node.path().to_vec(),
            element_index: node.element_index() as u32,
            severity: Severity::Info,
        }]
    }
}

#[test]
fn rules_see_the_closed_element_after_its_descendants() {
    let tree = TreeBuilder::<Box<dyn Rule>>::new("root")
        .rule(boxed(Where))
        .node("a")
        .rule(boxed(Where))
        .node("b")
        .rule(boxed(Where))
        .done()
        .done()
        .build()
        .unwrap();
    let (diags, r) = parse_slice(b"<root><a><b/><b/></a><a/></root>", &tree);
    assert!(r.is_ok());
    assert_eq!(
        messages(&diags),
        vec!["b@2#0:root/a/b", "b@2#1:root/a/b", "a@1#0:root/a", "a@1#1:root/a", "root@0#0:root"]
    );
}

#[test]
fn rules_run_once_each_in_order() {
    let tree = TreeBuilder::<Box<dyn Rule>>::new("root")
        .rule(boxed(Always { needs: NodeNeeds::empty() }))
        .rule(boxed(Where))
        .rule(boxed(Always { needs: NodeNeeds::empty() }))
        .build()
        .unwrap();
    let (diags, r) = parse_slice(b"<root/>", &tree);
    assert!(r.is_ok());
    assert_eq!(messages(&diags), vec!["root:0:", "root@0#0:root", "root:0:"]);
}

#[test]
fn only_end_tags_report() {
    let tree = TreeBuilder::<Box<dyn Rule>>::new("root")
        .rule(boxed(Always { needs: NodeNeeds::text() }))
        .build()
        .unwrap();
    let mut p = StreamParser::new(&tree);
    assert_eq!(p.handle_event(start("root", &[])).unwrap(), false);
    assert_eq!(p.handle_event(text("x")).unwrap(), false);
    assert_eq!(p.handle_event(XmlEvent::Other).unwrap(), false);
    assert!(p.take_ready().is_empty());
    let before_end = StreamParser::new(&tree);
    assert!(before_end.finish().is_empty());
    assert_eq!(p.handle_event(XmlEvent::End).unwrap(), false);
    assert_eq!(messages(&p.finish()), vec!["root:0:x"]);
}

#[test]
fn self_closing_element_is_start_then_end() {
    let tree = TreeBuilder::<Box<dyn Rule>>::new("root")
        .node("t")
        .rule(boxed(Always { needs: NodeNeeds::attrs() }))
        .done()
        .build()
        .unwrap();
    let mut p1 = StreamParser::new(&tree);
    p1.handle_event(start("root", &[])).unwrap();
    p1.handle_event(XmlEvent::Empty {
        name: b"t".to_vec(),
        attrs: vec![Ok((b"a".to_vec(), b"v".to_vec()))],
    })
    .unwrap();
    let mut p2 = StreamParser::new(&tree);
    p2.handle_event(start("root", &[])).unwrap();
    p2.handle_event(start("t", &[("a", "v")])).unwrap();
    p2.handle_event(XmlEvent::End).unwrap();
    assert_eq!(messages(&p1.finish()), messages(&p2.finish()));
    let (d1, r1) = parse_slice(b"<root><t a=\"v\"/></root>", &tree);
    let (d2, r2) = parse_slice(b"<root><t a=\"v\"></t></root>", &tree);
    assert!(r1.is_ok() && r2.is_ok());
    assert_eq!(messages(&d1), messages(&d2));
}

#[test]
fn last_mode_switch_wins() {
    let once = TreeBuilder::<Box<dyn Rule>>::new("root").node("a").streaming().build().unwrap();
    let twice =
        TreeBuilder::<Box<dyn Rule>>::new("root").node("a").streaming().streaming().build().unwrap();
    let after_capture = TreeBuilder::<Box<dyn Rule>>::new("root")
        .node("a")
        .capture_subtree()
        .streaming()
        .build()
        .unwrap();
    for t in [&twice, &after_capture] {
        assert_eq!(t.nodes.len(), once.nodes.len());
        for (x, y) in t.nodes.iter().zip(once.nodes.iter()) {
            assert_eq!(x.access_mode, y.access_mode);
            assert_eq!(x.needs, y.needs);
            assert_eq!(x.summary_needs, y.summary_needs);
        }
    }
    assert_eq!(once.nodes[1].access_mode, AccessMode::Streaming);
}

#[test]
fn context_pool_holds_only_empty_frames() {
    let mut pool = ContextPool::new();
    let mut c = pool.acquire(NodeId(1), vec![("k".to_owned(), "v".to_owned())], 0);
    c.text.push_str("text");
    pool.release(c);
    let e = pool.acquire(NodeId(2), vec![("x".to_owned(), "y".to_owned())], 1);
    pool.release(e);
    let f = pool.acquire(NodeId(9), vec![], 7);
    assert!(f.attrs.is_empty() && f.text.is_empty() && f.children.is_empty());
    assert_eq!((f.descriptor_id, f.index), (NodeId(9), 7));
}

#[test]
fn built_trees_are_well_formed_and_broken_ones_are_not() {
    let mut tree = TreeBuilder::<Box<dyn Rule>>::new("root")
        .node("a")
        .node("b")
        .done()
        .done()
        .node("c")
        .build()
        .unwrap();
    assert!(tree.check_wf());
    tree.nodes[2].full_path = vec![seg("root"), seg("x")];
    assert!(!tree.check_wf());
    let mut tree = TreeBuilder::<Box<dyn Rule>>::new("root").node("a").build().unwrap();
    tree.root_id = None;
    assert!(!tree.check_wf());
    let mut tree = TreeBuilder::<Box<dyn Rule>>::new("root").node("a").build().unwrap();
    tree.nodes[0].child_ids.clear();
    assert!(!tree.check_wf());
    let mut tree = TreeBuilder::<Box<dyn Rule>>::new("root").node("a").build().unwrap();
    tree.nodes[0].child_tag_index.clear();
    assert!(!tree.check_wf());
}

#[test]
fn children_are_indexed_by_tag_hash() {
    let tree = TreeBuilder::<Box<dyn Rule>>::new("root")
        .node("a")
        .done()
        .node("b")
        .node("a")
        .build()
        .unwrap();
    let root = &tree.nodes[0];
    assert_eq!(root.child_tag_index.get(&hash_tag("a")), Some(&vec![NodeId(1)]));
    assert_eq!(root.child_tag_index.get(&hash_tag("b")), Some(&vec![NodeId(2)]));
    assert_eq!(root.child_tag_index.len(), 2);
    assert_eq!(tree.child_of(NodeId(0), "a"), Some(NodeId(1)));
    assert_eq!(tree.child_of(NodeId(2), "a"), Some(NodeId(3)));
    assert_eq!(tree.child_of(NodeId(0), "c"), None);
    assert_eq!(tree.child_of(NodeId(1), "a"), None);
}

#[test]
fn error_messages() {
    let e = ReaderError::CaptureOverflow { path: "root/big".to_owned(), limit: 1024 };
    assert_eq!(e.message(), "capture buffer exceeded limit of 1024 bytes for subtree at 'root/big'");
    let e = ReaderError::CaptureOverflow { path: "r".to_owned(), limit: 0 };
    assert_eq!(e.message(), "capture buffer exceeded limit of 0 bytes for subtree at 'r'");
    let e = ReaderError::RootMismatch { expected: "root".to_owned(), found: "doc".to_owned() };
    assert_eq!(e.message(), "unexpected root element 'doc', expected 'root'");
    let bad = [0xffu8];
    let utf8 = std::str::from_utf8(&bad).unwrap_err();
    let e = ReaderError::Utf8 { source: utf8 };
    assert_eq!(e.message(), format!("UTF-8 decoding error: {}", utf8));
    assert_eq!(BuilderError::NoRoot.message(), "no root node declared");
    let e = BuilderError::DuplicatePath { path: "root/a".to_owned() };
    assert_eq!(e.message(), "duplicate node declaration for path 'root/a'");
    let e = BuilderError::IncompatibleAccessMode {
        node_path: "root".to_owned(),
        rule_name: "needs_capture".to_owned(),
    };
    assert_eq!(
        e.message(),
        "rule 'needs_capture' on node 'root' requires CaptureSubtree, but node is Streaming"
    );
    let e = BuilderError::NestedCapture { inner: "root/inner".to_owned(), outer: "root".to_owned() };
    assert_eq!(
        e.message(),
        "nested capture: 'root/inner' is CaptureSubtree within already-captured ancestor 'root'"
    );
    let e = BuilderError::OrphanNode { path: "a/b".to_owned(), parent_path: "a".to_owned() };
    assert_eq!(e.message(), "orphan node at path 'a/b': parent 'a' not declared");
}

/// Keeps the default `needs`.
struct Plain;

impl Rule for Plain {
    fn name(&self) -> &str {
        "plain"
    }
    fn evaluate(&self, _node: &dyn NodeAccess) -> Vec<Diagnostic> {
        vec![]
    }
}

#[test]
fn default_needs_are_all_data() {
    assert_eq!(Plain.needs(), NodeNeeds::all());
    assert_eq!(boxed(Plain).needs(), NodeNeeds::all());
    let tree = TreeBuilder::<Box<dyn Rule>>::new("root").rule(boxed(Plain)).build().unwrap();
    assert_eq!(tree.nodes[0].needs, NodeNeeds::all());
}

#[test]
fn sibling_indices_count_each_tag_apart() {
    let tree = TreeBuilder::<Box<dyn Rule>>::new("root")
        .node("ab")
        .rule(boxed(Where))
        .done()
        .node("ba")
        .rule(boxed(Where))
        .done()
        .build()
        .unwrap();
    let (diags, r) = parse_slice(b"<root><ab/><ba/><ab/><skip/><ba/><ab/></root>", &tree);
    assert!(r.is_ok());
    assert_eq!(
        messages(&diags),
        vec!["ab@1#0:root/ab", "ba@1#0:root/ba", "ab@1#1:root/ab", "ba@1#1:root/ba", "ab@1#2:root/ab"]
    );
}
