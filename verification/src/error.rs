use vstd::prelude::*;

verus! {

/// `quick_xml::Error`, carried through opaquely.
#[verifier::external_type_specification]
#[verifier::external_body]
pub struct ExXmlError(quick_xml::Error);

/// `std::io::Error`, carried through opaquely.
#[verifier::external_type_specification]
#[verifier::external_body]
pub struct ExIoError(std::io::Error);

/// `core::str::Utf8Error`, carried through opaquely.
#[verifier::external_type_specification]
#[verifier::external_body]
pub struct ExUtf8Error(core::str::Utf8Error);

/// Why a descriptor tree could not be built.
#[derive(Debug)]
pub enum BuilderError {
    /// No root node was declared.
    NoRoot,
    /// A node whose parent was not declared.
    OrphanNode { path: String, parent_path: String },
    /// A rule that needs subtree capture sits on a streaming node.
    IncompatibleAccessMode { node_path: String, rule_name: String },
    /// Two nodes were declared for the same path.
    DuplicatePath { path: String },
    /// A capture node inside an already captured ancestor.
    NestedCapture { inner: String, outer: String },
}

/// Why processing a document stopped.
#[derive(Debug)]
pub enum ReaderError {
    /// The XML tokenizer reported malformed input.
    XmlParse { source: quick_xml::Error },
    /// Reading the input failed.
    Io { source: std::io::Error },
    /// A captured subtree grew beyond the configured memory limit.
    CaptureOverflow { path: String, limit: usize },
    /// The document's root element is not the declared root.
    RootMismatch { expected: String, found: String },
    /// A name or value is not valid UTF-8.
    Utf8 { source: core::str::Utf8Error },
}

/// The decimal digit `d` as a character.
pub open spec fn digit_char(d: nat) -> char {
    (48 + d) as char
}

/// The decimal notation of `n`, most significant digit first.
pub open spec fn decimal(n: nat) -> Seq<char>
    decreases n,
{
    if n < 10 {
        seq![digit_char(n)]
    } else {
        decimal(n / 10).push(digit_char(n % 10))
    }
}

/// The decimal digit `d` as a string.
fn digit_str(d: usize) -> (r: &'static str)
    requires
        d < 10,
    ensures
        r@ == seq![digit_char(d as nat)],
{
    proof {
        reveal_strlit("0");
        reveal_strlit("1");
        reveal_strlit("2");
        reveal_strlit("3");
        reveal_strlit("4");
        reveal_strlit("5");
        reveal_strlit("6");
        reveal_strlit("7");
        reveal_strlit("8");
        reveal_strlit("9");
    }
    let r = match d {
        0 => "0",
        1 => "1",
        2 => "2",
        3 => "3",
        4 => "4",
        5 => "5",
        6 => "6",
        7 => "7",
        8 => "8",
        _ => "9",
    };
    assert(r@ =~= seq![digit_char(d as nat)]);
    r
}

/// Appends the decimal notation of `n` to `out`.
fn write_decimal(n: usize, out: &mut String)
    ensures
        final(out)@ == old(out)@ + decimal(n as nat),
    decreases n,
{
    if n >= 10 {
        write_decimal(n / 10, out);
    }
    out.append(digit_str(n % 10));
    proof {
        if n >= 10 {
            assert(decimal(n as nat) == decimal((n / 10) as nat).push(digit_char((n % 10) as nat)));
        }
    }
}

/// `m` is the message of an error whose text is `prefix` followed by the
/// text that `Display` gives `source`.
pub open spec fn describes<T: core::fmt::Display>(m: Seq<char>, prefix: Seq<char>, source: T) -> bool {
    exists|t: String| vstd::string::to_string_from_display_ensures::<T>(&source, t) && m == prefix + t@
}

impl BuilderError {
    /// The error's message.
    pub fn message(&self) -> (r: String)
        ensures
            r@ == match self {
                BuilderError::NoRoot => "no root node declared"@,
                BuilderError::OrphanNode { path, parent_path } => "orphan node at path '"@ + path@
                    + "': parent '"@ + parent_path@ + "' not declared"@,
                BuilderError::IncompatibleAccessMode { node_path, rule_name } => "rule '"@
                    + rule_name@ + "' on node '"@ + node_path@
                    + "' requires CaptureSubtree, but node is Streaming"@,
                BuilderError::DuplicatePath { path } => "duplicate node declaration for path '"@
                    + path@ + "'"@,
                BuilderError::NestedCapture { inner, outer } => "nested capture: '"@ + inner@
                    + "' is CaptureSubtree within already-captured ancestor '"@ + outer@ + "'"@,
            },
    {
        match self {
            BuilderError::NoRoot => String::from_str("no root node declared"),
            BuilderError::OrphanNode { path, parent_path } => {
                let mut m = String::from_str("orphan node at path '");
                m.append(path.as_str());
                m.append("': parent '");
                m.append(parent_path.as_str());
                m.append("' not declared");
                m
            },
            BuilderError::IncompatibleAccessMode { node_path, rule_name } => {
                let mut m = String::from_str("rule '");
                m.append(rule_name.as_str());
                m.append("' on node '");
                m.append(node_path.as_str());
                m.append("' requires CaptureSubtree, but node is Streaming");
                m
            },
            BuilderError::DuplicatePath { path } => {
                let mut m = String::from_str("duplicate node declaration for path '");
                m.append(path.as_str());
                m.append("'");
                m
            },
            BuilderError::NestedCapture { inner, outer } => {
                let mut m = String::from_str("nested capture: '");
                m.append(inner.as_str());
                m.append("' is CaptureSubtree within already-captured ancestor '");
                m.append(outer.as_str());
                m.append("'");
                m
            },
        }
    }
}

impl ReaderError {
    /// The error's message; that of an outside error ends with the text its
    /// `Display` gives.
    pub fn message(&self) -> (r: String)
        ensures
            match self {
                ReaderError::XmlParse { source } => describes(r@, "XML parse error: "@, *source),
                ReaderError::Io { source } => describes(r@, "I/O error: "@, *source),
                ReaderError::CaptureOverflow { path, limit } => r@
                    == "capture buffer exceeded limit of "@ + decimal(*limit as nat)
                    + " bytes for subtree at '"@ + path@ + "'"@,
                ReaderError::RootMismatch { expected, found } => r@ == "unexpected root element '"@
                    + found@ + "', expected '"@ + expected@ + "'"@,
                ReaderError::Utf8 { source } => describes(r@, "UTF-8 decoding error: "@, *source),
            },
    {
        match self {
            ReaderError::XmlParse { source } => {
                let t = source.to_string();
                let mut m = String::from_str("XML parse error: ");
                m.append(t.as_str());
                proof {
                    assert(describes(m@, "XML parse error: "@, *source));
                }
                m
            },
            ReaderError::Io { source } => {
                let t = source.to_string();
                let mut m = String::from_str("I/O error: ");
                m.append(t.as_str());
                proof {
                    assert(describes(m@, "I/O error: "@, *source));
                }
                m
            },
            ReaderError::CaptureOverflow { path, limit } => {
                let mut m = String::from_str("capture buffer exceeded limit of ");
                write_decimal(*limit, &mut m);
                m.append(" bytes for subtree at '");
                m.append(path.as_str());
                m.append("'");
                m
            },
            ReaderError::RootMismatch { expected, found } => {
                let mut m = String::from_str("unexpected root element '");
                m.append(found.as_str());
                m.append("', expected '");
                m.append(expected.as_str());
                m.append("'");
                m
            },
            ReaderError::Utf8 { source } => {
                let t = source.to_string();
                let mut m = String::from_str("UTF-8 decoding error: ");
                m.append(t.as_str());
                proof {
                    assert(describes(m@, "UTF-8 decoding error: "@, *source));
                }
                m
            },
        }
    }
}

} // verus!
