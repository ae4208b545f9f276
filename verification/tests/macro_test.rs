//! The declarative trees of the `build_tree!` macro, written out as the
//! builder calls that the macro expands to.

use xml_oxydizer::diagnostic::{Diagnostic, Severity};
use xml_oxydizer::reader::parser::parse_slice;
use xml_oxydizer::rule::{NodeAccess, Rule};
use xml_oxydizer::tree::builder::TreeBuilder;
use xml_oxydizer::tree::descriptor::{DescriptorTree, NodeNeeds};

// --- Rules used by the tree tests ---

struct CheckAttr {
    attr_name: &'static str,
    expected: &'static str,
}

impl Rule for CheckAttr {
    fn name(&self) -> &str {
        "check_attr"
    }
    fn needs(&self) -> NodeNeeds {
        NodeNeeds::all()
    }
    fn evaluate(&self, node: &dyn NodeAccess) -> Vec<Diagnostic> {
        match node.attr(self.attr_name) {
            Some(v) if v == self.expected => vec![],
            _ => vec![Diagnostic {
                rule_name: self.name().to_owned(),
                severity: Severity::Error,
                message: format!("attr {} != {}", self.attr_name, self.expected),
                element_path: node.path().to_vec(),
                element_index: node.element_index() as u32,
            }],
        }
    }
}

struct CheckText {
    expected: &'static str,
}

impl Rule for CheckText {
    fn name(&self) -> &str {
        "check_text"
    }
    fn needs(&self) -> NodeNeeds {
        NodeNeeds::all()
    }
    fn evaluate(&self, node: &dyn NodeAccess) -> Vec<Diagnostic> {
        if node.text() == self.expected {
            vec![]
        } else {
            vec![Diagnostic {
                rule_name: self.name().to_owned(),
                severity: Severity::Error,
                message: format!("text mismatch: got {:?}", node.text()),
                element_path: node.path().to_vec(),
                element_index: node.element_index() as u32,
            }]
        }
    }
}

struct CheckParent {
    parent_attr: &'static str,
    expected: &'static str,
}

impl Rule for CheckParent {
    fn name(&self) -> &str {
        "check_parent"
    }
    fn needs(&self) -> NodeNeeds {
        NodeNeeds::all()
    }
    fn evaluate(&self, node: &dyn NodeAccess) -> Vec<Diagnostic> {
        match node.ancestor_attr(0, self.parent_attr) {
            Some(v) if v == self.expected => vec![],
            _ => vec![Diagnostic {
                rule_name: self.name().to_owned(),
                severity: Severity::Error,
                message: "parent mismatch".into(),
                element_path: node.path().to_vec(),
                element_index: node.element_index() as u32,
            }],
        }
    }
}

struct SubtreeHasTag {
    tag: &'static str,
}

impl Rule for SubtreeHasTag {
    fn name(&self) -> &str {
        "subtree_has_tag"
    }
    fn needs(&self) -> NodeNeeds {
        NodeNeeds::all().union(NodeNeeds::capture())
    }
    fn evaluate(&self, node: &dyn NodeAccess) -> Vec<Diagnostic> {
        match node.subtree() {
            Some(st) if st.find(self.tag).is_some() => vec![],
            _ => vec![Diagnostic {
                rule_name: self.name().to_owned(),
                severity: Severity::Error,
                message: format!("missing <{}>", self.tag),
                element_path: node.path().to_vec(),
                element_index: node.element_index() as u32,
            }],
        }
    }
}

struct NoopRule;

impl Rule for NoopRule {
    fn name(&self) -> &str {
        "noop"
    }
    fn needs(&self) -> NodeNeeds {
        NodeNeeds::all()
    }
    fn evaluate(&self, _node: &dyn NodeAccess) -> Vec<Diagnostic> {
        vec![]
    }
}

struct ChildCount {
    tag: &'static str,
    expected: usize,
}

impl Rule for ChildCount {
    fn name(&self) -> &str {
        "child_count"
    }
    fn needs(&self) -> NodeNeeds {
        NodeNeeds::all()
    }
    fn evaluate(&self, node: &dyn NodeAccess) -> Vec<Diagnostic> {
        // One child tag per parent in these trees: all children count.
        let count = node.children_summaries().len();
        if count == self.expected {
            vec![]
        } else {
            vec![Diagnostic {
                rule_name: self.name().to_owned(),
                severity: Severity::Error,
                message: format!("expected {} <{}>, got {}", self.expected, self.tag, count),
                element_path: node.path().to_vec(),
                element_index: node.element_index() as u32,
            }]
        }
    }
}

// --- Helper ---

fn boxed<T: Rule + 'static>(rule: T) -> Box<dyn Rule> {
    Box::new(rule)
}

fn run_xml(tree: DescriptorTree<Box<dyn Rule>>, xml: &str) -> Vec<Diagnostic> {
    let (diags, result) = parse_slice(xml.as_bytes(), &tree);
    assert!(result.is_ok(), "pipeline errors: {:?}", result);
    diags
}

// --- Tests ---

#[test]
fn test_macro_simple_streaming() {
    let tree = TreeBuilder::<Box<dyn Rule>>::new("root")
        .streaming()
        .rule(boxed(CheckAttr { attr_name: "v", expected: "1" }))
        .build()
        .unwrap();

    let diags = run_xml(tree, r#"<root v="1"/>"#);
    assert!(diags.is_empty(), "{:?}", diags);
}

#[test]
fn test_macro_default_mode_is_streaming() {
    let tree = TreeBuilder::<Box<dyn Rule>>::new("root")
        .rule(boxed(CheckAttr { attr_name: "v", expected: "1" }))
        .build()
        .unwrap();

    let diags = run_xml(tree, r#"<root v="1"/>"#);
    assert!(diags.is_empty(), "{:?}", diags);
}

#[test]
fn test_macro_streaming_failure() {
    let tree = TreeBuilder::<Box<dyn Rule>>::new("root")
        .streaming()
        .rule(boxed(CheckAttr { attr_name: "v", expected: "2" }))
        .build()
        .unwrap();

    let diags = run_xml(tree, r#"<root v="1"/>"#);
    assert_eq!(diags.len(), 1);
}

#[test]
fn test_macro_multiple_rules() {
    let tree = TreeBuilder::<Box<dyn Rule>>::new("root")
        .streaming()
        .rule(boxed(CheckAttr { attr_name: "a", expected: "1" }))
        .rule(boxed(CheckAttr { attr_name: "b", expected: "2" }))
        .build()
        .unwrap();

    let diags = run_xml(tree, r#"<root a="1" b="2"/>"#);
    assert!(diags.is_empty(), "{:?}", diags);
}

#[test]
fn test_macro_child_node() {
    let tree = TreeBuilder::<Box<dyn Rule>>::new("root")
        .streaming()
        .node("child")
        .streaming()
        .rule(boxed(CheckAttr { attr_name: "id", expected: "ok" }))
        .done()
        .build()
        .unwrap();

    let diags = run_xml(tree, r#"<root><child id="ok"/></root>"#);
    assert!(diags.is_empty(), "{:?}", diags);
}

#[test]
fn test_macro_child_default_mode() {
    let tree = TreeBuilder::<Box<dyn Rule>>::new("root")
        .node("child")
        .rule(boxed(CheckAttr { attr_name: "id", expected: "ok" }))
        .done()
        .build()
        .unwrap();

    let diags = run_xml(tree, r#"<root><child id="ok"/></root>"#);
    assert!(diags.is_empty(), "{:?}", diags);
}

#[test]
fn test_macro_mixed_rules_and_children() {
    let tree = TreeBuilder::<Box<dyn Rule>>::new("root")
        .streaming()
        .rule(boxed(CheckAttr { attr_name: "v", expected: "1" }))
        .rule(boxed(ChildCount { tag: "item", expected: 3 }))
        .node("item")
        .streaming()
        .rule(boxed(CheckAttr { attr_name: "status", expected: "ok" }))
        .done()
        .build()
        .unwrap();

    let xml = r#"<root v="1"><item status="ok"/><item status="ok"/><item status="ok"/></root>"#;
    let diags = run_xml(tree, xml);
    assert!(diags.is_empty(), "{:?}", diags);
}

#[test]
fn test_macro_capture_subtree() {
    let tree = TreeBuilder::<Box<dyn Rule>>::new("catalog")
        .streaming()
        .node("schema")
        .capture_subtree()
        .rule(boxed(SubtreeHasTag { tag: "field" }))
        .done()
        .node("entry")
        .streaming()
        .rule(boxed(CheckAttr { attr_name: "sku", expected: "A" }))
        .done()
        .build()
        .unwrap();

    let xml = r#"<catalog>
        <schema><field name="x"/></schema>
        <entry sku="A"/>
    </catalog>"#;
    let diags = run_xml(tree, xml);
    assert!(diags.is_empty(), "{:?}", diags);
}

#[test]
fn test_macro_deep_nesting() {
    let tree = TreeBuilder::<Box<dyn Rule>>::new("a")
        .streaming()
        .node("b")
        .node("c")
        .node("d")
        .rule(boxed(CheckAttr { attr_name: "val", expected: "ok" }))
        .done()
        .done()
        .done()
        .build()
        .unwrap();

    let diags = run_xml(tree, r#"<a><b><c><d val="ok"/></c></b></a>"#);
    assert!(diags.is_empty(), "{:?}", diags);
}

#[test]
fn test_macro_parent_access() {
    let tree = TreeBuilder::<Box<dyn Rule>>::new("root")
        .streaming()
        .node("child")
        .streaming()
        .rule(boxed(CheckParent { parent_attr: "version", expected: "3" }))
        .done()
        .build()
        .unwrap();

    let diags = run_xml(tree, r#"<root version="3"><child/></root>"#);
    assert!(diags.is_empty(), "{:?}", diags);
}

#[test]
fn test_macro_siblings() {
    let tree = TreeBuilder::<Box<dyn Rule>>::new("root")
        .streaming()
        .node("a")
        .streaming()
        .rule(boxed(CheckAttr { attr_name: "x", expected: "1" }))
        .done()
        .node("b")
        .streaming()
        .rule(boxed(CheckAttr { attr_name: "y", expected: "2" }))
        .done()
        .build()
        .unwrap();

    let diags = run_xml(tree, r#"<root><a x="1"/><b y="2"/></root>"#);
    assert!(diags.is_empty(), "{:?}", diags);
}

#[test]
fn test_macro_empty_body() {
    let tree = TreeBuilder::<Box<dyn Rule>>::new("root").streaming().build().unwrap();

    let diags = run_xml(tree, "<root/>");
    assert!(diags.is_empty());
}

#[test]
fn test_macro_noop_rule() {
    let tree = TreeBuilder::<Box<dyn Rule>>::new("root")
        .rule(boxed(NoopRule {}))
        .build()
        .unwrap();

    let diags = run_xml(tree, "<root/>");
    assert!(diags.is_empty());
}

#[test]
fn test_macro_matches_builder_output() {
    let macro_tree = TreeBuilder::<Box<dyn Rule>>::new("root")
        .streaming()
        .rule(boxed(CheckAttr { attr_name: "v", expected: "1" }))
        .node("child")
        .capture_subtree()
        .rule(boxed(SubtreeHasTag { tag: "inner" }))
        .done()
        .node("item")
        .streaming()
        .rule(boxed(CheckAttr { attr_name: "id", expected: "ok" }))
        .node("detail")
        .rule(boxed(CheckText { expected: "hello" }))
        .done()
        .done()
        .build()
        .unwrap();

    let builder_tree = TreeBuilder::<Box<dyn Rule>>::new("root")
        .streaming()
        .rule(Box::new(CheckAttr { attr_name: "v", expected: "1" }) as Box<dyn Rule>)
        .node("child")
        .capture_subtree()
        .rule(Box::new(SubtreeHasTag { tag: "inner" }) as Box<dyn Rule>)
        .done()
        .node("item")
        .streaming()
        .rule(Box::new(CheckAttr { attr_name: "id", expected: "ok" }) as Box<dyn Rule>)
        .node("detail")
        .rule(Box::new(CheckText { expected: "hello" }) as Box<dyn Rule>)
        .done()
        .done()
        .build()
        .unwrap();

    let xml = r#"<root v="1"><child><inner/></child><item id="ok"><detail>hello</detail></item></root>"#;

    let macro_diags = run_xml(macro_tree, xml);
    let builder_diags = run_xml(builder_tree, xml);

    assert!(macro_diags.is_empty(), "macro diags: {:?}", macro_diags);
    assert!(builder_diags.is_empty(), "builder diags: {:?}", builder_diags);
}

#[test]
fn test_macro_full_example_from_template() {
    let tree = TreeBuilder::<Box<dyn Rule>>::new("root")
        .streaming()
        .rule(boxed(CheckAttr { attr_name: "v", expected: "1" }))
        .rule(boxed(NoopRule {}))
        .node("child")
        .capture_subtree()
        .rule(boxed(SubtreeHasTag { tag: "deep_child" }))
        .node("deep_child")
        .rule(boxed(CheckAttr { attr_name: "x", expected: "yes" }))
        .done()
        .done()
        .build();
    assert!(tree.is_ok(), "build failed: {:?}", tree.err());
}

#[test]
fn test_macro_trailing_comma() {
    let tree = TreeBuilder::<Box<dyn Rule>>::new("root")
        .streaming()
        .rule(boxed(CheckAttr { attr_name: "a", expected: "1" }))
        .node("child")
        .rule(boxed(NoopRule {}))
        .done()
        .build()
        .unwrap();

    let diags = run_xml(tree, r#"<root a="1"><child/></root>"#);
    assert!(diags.is_empty(), "{:?}", diags);
}
