use xml_oxydizer::diagnostic::{Diagnostic, Severity};
use xml_oxydizer::error::{BuilderError, ReaderError};
use xml_oxydizer::reader::parser::parse_slice;
use xml_oxydizer::rule::{NodeAccess, Rule};
use xml_oxydizer::tree::builder::TreeBuilder;
use xml_oxydizer::tree::descriptor::{DescriptorTree, NodeNeeds};

// --- Test rules ---

struct CheckAttr {
    name: &'static str,
    attr_name: &'static str,
    expected_value: &'static str,
}

impl Rule for CheckAttr {
    fn name(&self) -> &str {
        self.name
    }
    fn needs(&self) -> NodeNeeds {
        NodeNeeds::all()
    }
    fn evaluate(&self, node: &dyn NodeAccess) -> Vec<Diagnostic> {
        match node.attr(self.attr_name) {
            Some(v) if v == self.expected_value => vec![],
            other => vec![Diagnostic {
                rule_name: self.name().to_owned(),
                severity: Severity::Error,
                message: format!(
                    "expected {}=\"{}\", got {:?}",
                    self.attr_name, self.expected_value, other
                ),
                element_path: node.path().to_vec(),
                element_index: node.element_index() as u32,
            }],
        }
    }
}

struct CheckParentAttr {
    name: &'static str,
    parent_attr: &'static str,
    expected_value: &'static str,
}

impl Rule for CheckParentAttr {
    fn name(&self) -> &str {
        self.name
    }
    fn needs(&self) -> NodeNeeds {
        NodeNeeds::all()
    }
    fn evaluate(&self, node: &dyn NodeAccess) -> Vec<Diagnostic> {
        match node.ancestor_attr(0, self.parent_attr) {
            Some(v) if v == self.expected_value => vec![],
            other => vec![Diagnostic {
                rule_name: self.name().to_owned(),
                severity: Severity::Error,
                message: format!(
                    "parent attr {}=\"{}\", got {:?}",
                    self.parent_attr, self.expected_value, other
                ),
                element_path: node.path().to_vec(),
                element_index: node.element_index() as u32,
            }],
        }
    }
}

struct CheckText {
    name: &'static str,
    expected: &'static str,
}

impl Rule for CheckText {
    fn name(&self) -> &str {
        self.name
    }
    fn needs(&self) -> NodeNeeds {
        NodeNeeds::all()
    }
    fn evaluate(&self, node: &dyn NodeAccess) -> Vec<Diagnostic> {
        if node.text() == self.expected {
            vec![]
        } else {
            vec![Diagnostic {
                rule_name: self.name().to_owned(),
                severity: Severity::Error,
                message: format!("expected text \"{}\", got \"{}\"", self.expected, node.text()),
                element_path: node.path().to_vec(),
                element_index: node.element_index() as u32,
            }]
        }
    }
}

/// Counts the completed children; the trees below declare one child tag
/// per parent, so this is the count of `child_tag` children.
struct CheckChildCount {
    name: &'static str,
    child_tag: &'static str,
    expected_count: usize,
}

impl Rule for CheckChildCount {
    fn name(&self) -> &str {
        self.name
    }
    fn needs(&self) -> NodeNeeds {
        NodeNeeds::all()
    }
    fn evaluate(&self, node: &dyn NodeAccess) -> Vec<Diagnostic> {
        let count = node.children_summaries().len();
        if count == self.expected_count {
            vec![]
        } else {
            vec![Diagnostic {
                rule_name: self.name().to_owned(),
                severity: Severity::Error,
                message: format!(
                    "expected {} {} children, got {}",
                    self.expected_count, self.child_tag, count
                ),
                element_path: node.path().to_vec(),
                element_index: node.element_index() as u32,
            }]
        }
    }
}

struct CheckSubtreeHasChild {
    name: &'static str,
    child_tag: &'static str,
}

impl Rule for CheckSubtreeHasChild {
    fn name(&self) -> &str {
        self.name
    }
    fn needs(&self) -> NodeNeeds {
        NodeNeeds::all().union(NodeNeeds::capture())
    }
    fn evaluate(&self, node: &dyn NodeAccess) -> Vec<Diagnostic> {
        match node.subtree() {
            Some(subtree) => {
                if subtree.find(self.child_tag).is_some() {
                    vec![]
                } else {
                    vec![Diagnostic {
                        rule_name: self.name().to_owned(),
                        severity: Severity::Error,
                        message: format!("subtree missing child <{}>", self.child_tag),
                        element_path: node.path().to_vec(),
                        element_index: node.element_index() as u32,
                    }]
                }
            }
            None => vec![Diagnostic {
                rule_name: self.name().to_owned(),
                severity: Severity::Error,
                message: "no subtree available".to_owned(),
                element_path: node.path().to_vec(),
                element_index: node.element_index() as u32,
            }],
        }
    }
}

struct CountSubtreeDescendants {
    name: &'static str,
    tag: &'static str,
    expected: usize,
}

impl Rule for CountSubtreeDescendants {
    fn name(&self) -> &str {
        self.name
    }
    fn needs(&self) -> NodeNeeds {
        NodeNeeds::all().union(NodeNeeds::capture())
    }
    fn evaluate(&self, node: &dyn NodeAccess) -> Vec<Diagnostic> {
        let count = node.subtree().map(|s| s.find_all(self.tag).len()).unwrap_or(0);
        if count == self.expected {
            vec![]
        } else {
            vec![Diagnostic {
                rule_name: self.name().to_owned(),
                severity: Severity::Error,
                message: format!(
                    "expected {} <{}> descendants, got {}",
                    self.expected, self.tag, count
                ),
                element_path: node.path().to_vec(),
                element_index: node.element_index() as u32,
            }]
        }
    }
}

fn boxed<T: Rule + 'static>(rule: T) -> Box<dyn Rule> {
    Box::new(rule)
}

fn run(tree: &DescriptorTree<Box<dyn Rule>>, xml: &str) -> (Vec<Diagnostic>, Result<(), ReaderError>) {
    parse_slice(xml.as_bytes(), tree)
}

// --- Tests ---

#[test]
fn test_streaming_10k_children() {
    let tree = TreeBuilder::<Box<dyn Rule>>::new("root")
        .streaming()
        .rule(boxed(CheckAttr {
            name: "check_root_attr",
            attr_name: "test",
            expected_value: "value",
        }))
        .rule(boxed(CheckChildCount {
            name: "check_child_count",
            child_tag: "child",
            expected_count: 10_000,
        }))
        .node("child")
        .streaming()
        .rule(boxed(CheckAttr {
            name: "check_child_attr",
            attr_name: "test2",
            expected_value: "value2",
        }))
        .done()
        .build()
        .unwrap();

    let mut xml = String::from(r#"<root test="value">"#);
    for _ in 0..10_000 {
        xml.push_str(r#"<child test2="value2"></child>"#);
    }
    xml.push_str("</root>");

    let (diagnostics, result) = run(&tree, &xml);
    assert!(result.is_ok(), "pipeline errors: {:?}", result);
    assert!(diagnostics.is_empty(), "unexpected diagnostics: {:?}", diagnostics);
}

#[test]
fn test_streaming_with_failures() {
    let tree = TreeBuilder::<Box<dyn Rule>>::new("root")
        .streaming()
        .rule(boxed(CheckAttr {
            name: "check_root",
            attr_name: "version",
            expected_value: "2",
        }))
        .node("item")
        .streaming()
        .rule(boxed(CheckAttr {
            name: "check_item",
            attr_name: "status",
            expected_value: "active",
        }))
        .done()
        .build()
        .unwrap();

    let xml = r#"<root version="1"><item status="active"></item><item status="inactive"></item></root>"#;

    let (diagnostics, result) = run(&tree, xml);
    assert!(result.is_ok());
    assert_eq!(diagnostics.len(), 2);
    assert!(diagnostics.iter().any(|d| d.rule_name == "check_root"));
    assert!(diagnostics.iter().any(|d| d.rule_name == "check_item" && d.element_index == 1));
}

#[test]
fn test_parent_access() {
    let tree = TreeBuilder::<Box<dyn Rule>>::new("root")
        .streaming()
        .node("child")
        .streaming()
        .rule(boxed(CheckParentAttr {
            name: "check_parent",
            parent_attr: "version",
            expected_value: "3",
        }))
        .done()
        .build()
        .unwrap();

    let xml = r#"<root version="3"><child></child></root>"#;

    let (diagnostics, result) = run(&tree, xml);
    assert!(result.is_ok());
    assert!(diagnostics.is_empty(), "unexpected diagnostics: {:?}", diagnostics);
}

#[test]
fn test_capture_subtree() {
    let tree = TreeBuilder::<Box<dyn Rule>>::new("catalog")
        .streaming()
        .node("schema")
        .capture_subtree()
        .rule(boxed(CheckSubtreeHasChild {
            name: "schema_has_field",
            child_tag: "field",
        }))
        .rule(boxed(CountSubtreeDescendants {
            name: "schema_field_count",
            tag: "field",
            expected: 3,
        }))
        .done()
        .node("entry")
        .streaming()
        .rule(boxed(CheckAttr {
            name: "check_entry_sku",
            attr_name: "sku",
            expected_value: "ABC",
        }))
        .done()
        .build()
        .unwrap();

    let xml = r#"<catalog>
        <schema>
            <field name="sku" type="string"/>
            <field name="price" type="decimal"/>
            <field name="name" type="string"/>
        </schema>
        <entry sku="ABC"></entry>
        <entry sku="ABC"></entry>
    </catalog>"#;

    let (diagnostics, result) = run(&tree, xml);
    assert!(result.is_ok(), "pipeline errors: {:?}", result);
    assert!(diagnostics.is_empty(), "unexpected diagnostics: {:?}", diagnostics);
}

#[test]
fn test_capture_with_parent_access() {
    struct CaptureWithParent;

    impl Rule for CaptureWithParent {
        fn name(&self) -> &str {
            "capture_parent_check"
        }
        fn needs(&self) -> NodeNeeds {
            NodeNeeds::all().union(NodeNeeds::capture())
        }
        fn evaluate(&self, node: &dyn NodeAccess) -> Vec<Diagnostic> {
            match node.ancestor_attr(0, "version") {
                Some("3") => vec![],
                _ => vec![Diagnostic {
                    rule_name: self.name().to_owned(),
                    severity: Severity::Error,
                    message: "parent missing version=3".to_owned(),
                    element_path: node.path().to_vec(),
                    element_index: node.element_index() as u32,
                }],
            }
        }
    }

    let tree = TreeBuilder::<Box<dyn Rule>>::new("root")
        .streaming()
        .node("section")
        .capture_subtree()
        .rule(boxed(CaptureWithParent))
        .done()
        .build()
        .unwrap();

    let xml = r#"<root version="3"><section><item>hello</item></section></root>"#;

    let (diagnostics, result) = run(&tree, xml);
    assert!(result.is_ok());
    assert!(diagnostics.is_empty(), "unexpected diagnostics: {:?}", diagnostics);
}

#[test]
fn test_text_content() {
    let tree = TreeBuilder::<Box<dyn Rule>>::new("root")
        .streaming()
        .node("message")
        .streaming()
        .rule(boxed(CheckText {
            name: "check_msg",
            expected: "hello world",
        }))
        .done()
        .build()
        .unwrap();

    let xml = r#"<root><message>hello world</message></root>"#;

    let (diagnostics, result) = run(&tree, xml);
    assert!(result.is_ok());
    assert!(diagnostics.is_empty(), "unexpected diagnostics: {:?}", diagnostics);
}

#[test]
fn test_unmatched_elements_skipped() {
    let tree = TreeBuilder::<Box<dyn Rule>>::new("root")
        .streaming()
        .node("target")
        .streaming()
        .rule(boxed(CheckAttr {
            name: "check_target",
            attr_name: "ok",
            expected_value: "yes",
        }))
        .done()
        .build()
        .unwrap();

    let xml = r#"<root><ignored><nested>deep</nested></ignored><target ok="yes"></target><also_ignored/></root>"#;

    let (diagnostics, result) = run(&tree, xml);
    assert!(result.is_ok());
    assert!(diagnostics.is_empty(), "unexpected diagnostics: {:?}", diagnostics);
}

#[test]
fn test_self_closing_tags() {
    let tree = TreeBuilder::<Box<dyn Rule>>::new("root")
        .streaming()
        .node("item")
        .streaming()
        .rule(boxed(CheckAttr {
            name: "check_item",
            attr_name: "id",
            expected_value: "1",
        }))
        .done()
        .build()
        .unwrap();

    let xml = r#"<root><item id="1"/></root>"#;

    let (diagnostics, result) = run(&tree, xml);
    assert!(result.is_ok());
    assert!(diagnostics.is_empty(), "unexpected diagnostics: {:?}", diagnostics);
}

#[test]
fn test_capture_overflow() {
    let tree = TreeBuilder::<Box<dyn Rule>>::new("root")
        .streaming()
        .node("big")
        .capture_subtree()
        .rule(boxed(CheckSubtreeHasChild {
            name: "dummy",
            child_tag: "x",
        }))
        .done()
        .capture_limit(100)
        .build()
        .unwrap();

    let mut xml = String::from("<root><big>");
    for i in 0..100 {
        xml.push_str(&format!(r#"<item id="{}">some text content</item>"#, i));
    }
    xml.push_str("</big></root>");

    let (_diagnostics, result) = run(&tree, &xml);
    let err = result.unwrap_err();
    let err_msg = err.message();
    assert!(err_msg.contains("capture buffer exceeded"), "got: {}", err_msg);
    match err {
        ReaderError::CaptureOverflow { path, limit } => {
            assert_eq!(limit, 100);
            assert_eq!(path, "root/big");
        }
        other => panic!("got: {:?}", other),
    }
}

#[test]
fn test_multiple_files_parallel() {
    let tree = TreeBuilder::<Box<dyn Rule>>::new("doc")
        .streaming()
        .rule(boxed(CheckAttr {
            name: "check_version",
            attr_name: "v",
            expected_value: "1",
        }))
        .build()
        .unwrap();

    let mut errors = Vec::new();
    let mut diagnostics = Vec::new();
    for i in 0..100 {
        let xml = format!(r#"<doc v="1">file {}</doc>"#, i);
        let (d, r) = run(&tree, &xml);
        diagnostics.extend(d);
        if let Err(e) = r {
            errors.push(e);
        }
    }

    assert!(errors.is_empty(), "errors: {:?}", errors);
    assert!(diagnostics.is_empty(), "unexpected diagnostics: {:?}", diagnostics);
}

#[test]
fn test_streaming_pipeline_with_channel() {
    let tree = TreeBuilder::<Box<dyn Rule>>::new("item")
        .streaming()
        .rule(boxed(CheckAttr {
            name: "check_id",
            attr_name: "id",
            expected_value: "ok",
        }))
        .build()
        .unwrap();

    let mut errors = Vec::new();
    let mut diagnostics = Vec::new();
    for i in 0..20 {
        let xml = format!(r#"<item id="ok">item {}</item>"#, i);
        let (d, r) = run(&tree, &xml);
        diagnostics.extend(d);
        if let Err(e) = r {
            errors.push(e);
        }
    }

    assert!(errors.is_empty());
    assert!(diagnostics.is_empty(), "unexpected diagnostics: {:?}", diagnostics);
}

#[test]
fn test_builder_incompatible_access_mode() {
    let result = TreeBuilder::<Box<dyn Rule>>::new("root")
        .streaming()
        .rule(boxed(CheckSubtreeHasChild {
            name: "needs_capture",
            child_tag: "x",
        }))
        .build();

    assert!(matches!(result, Err(BuilderError::IncompatibleAccessMode { .. })));
}

#[test]
fn test_builder_nested_capture_rejected() {
    let result = TreeBuilder::<Box<dyn Rule>>::new("root")
        .capture_subtree()
        .node("inner")
        .capture_subtree()
        .done()
        .build();

    assert!(matches!(result, Err(BuilderError::NestedCapture { .. })));
}

#[test]
fn test_sibling_visibility() {
    struct CheckSiblingCount {
        expected: usize,
    }

    impl Rule for CheckSiblingCount {
        fn name(&self) -> &str {
            "sibling_count"
        }
        fn needs(&self) -> NodeNeeds {
            NodeNeeds::all()
        }
        fn evaluate(&self, node: &dyn NodeAccess) -> Vec<Diagnostic> {
            let siblings = node.ancestor_children(0).map(|c| c.len()).unwrap_or(0);
            if node.element_index() == 2 && siblings != self.expected {
                vec![Diagnostic {
                    rule_name: self.name().to_owned(),
                    severity: Severity::Error,
                    message: format!("expected {} previous siblings, got {}", self.expected, siblings),
                    element_path: node.path().to_vec(),
                    element_index: node.element_index() as u32,
                }]
            } else {
                vec![]
            }
        }
    }

    let tree = TreeBuilder::<Box<dyn Rule>>::new("root")
        .streaming()
        .node("item")
        .streaming()
        .rule(boxed(CheckSiblingCount { expected: 2 }))
        .done()
        .build()
        .unwrap();

    let xml = r#"<root><item/><item/><item/></root>"#;

    let (diagnostics, result) = run(&tree, xml);
    assert!(result.is_ok());
    assert!(diagnostics.is_empty(), "unexpected diagnostics: {:?}", diagnostics);
}

#[test]
fn test_deep_nesting() {
    let tree = TreeBuilder::<Box<dyn Rule>>::new("a")
        .streaming()
        .node("b")
        .streaming()
        .node("c")
        .streaming()
        .node("d")
        .streaming()
        .rule(boxed(CheckAttr {
            name: "check_d",
            attr_name: "val",
            expected_value: "ok",
        }))
        .done()
        .done()
        .done()
        .build()
        .unwrap();

    let xml = r#"<a><b><c><d val="ok"/></c></b></a>"#;

    let (diagnostics, result) = run(&tree, xml);
    assert!(result.is_ok());
    assert!(diagnostics.is_empty(), "unexpected diagnostics: {:?}", diagnostics);
}
