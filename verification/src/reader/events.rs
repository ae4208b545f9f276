use vstd::prelude::*;

use quick_xml::events::{BytesStart, BytesText, Event};
use quick_xml::Reader;

verus! {

/// `quick_xml::Reader`, the tokenizer; opaque.
#[verifier::external_type_specification]
#[verifier::external_body]
#[verifier::reject_recursive_types(R)]
pub struct ExReader<R>(Reader<R>);

/// `quick_xml::events::BytesStart`, a start tag; opaque.
#[verifier::external_type_specification]
#[verifier::external_body]
pub struct ExBytesStart<'a>(BytesStart<'a>);

/// `quick_xml::events::BytesText`, character data; opaque.
#[verifier::external_type_specification]
#[verifier::external_body]
pub struct ExBytesText<'a>(BytesText<'a>);

/// One attribute as the tokenizer delivered it: its raw key and value
/// bytes, or the error that the tokenizer reported for it.
pub type RawAttribute = Result<(Vec<u8>, Vec<u8>), quick_xml::Error>;

/// A tokenizer event, its payload held in plain values.
pub enum XmlEvent {
    /// `<name attrs..>`: the raw name and the attributes in document order.
    Start { name: Vec<u8>, attrs: Vec<RawAttribute> },
    /// `</name>`.
    End,
    /// `<name attrs../>`: an element that opens and closes at once.
    Empty { name: Vec<u8>, attrs: Vec<RawAttribute> },
    /// Character data between tags, decoded, or the decoding error.
    Text { content: Result<String, quick_xml::Error> },
    /// The end of the input.
    Eof,
    /// Comments, declarations, processing instructions and other events
    /// that validation ignores.
    Other,
}

/// What the in-memory tokenizer (`quick_xml::Reader` over a string, in its
/// default configuration but for text trimming) hands out as its event
/// number `k`, counting from 0, over the document `text`, with text events
/// trimmed of surrounding whitespace when `trim` is set: the event with its
/// payload moved into plain values, or the error it reported.
pub uninterp spec fn xml_event_at(text: Seq<char>, trim: bool, k: nat) -> Result<XmlEvent, quick_xml::Error>;

/// The in-memory tokenizer over one document, with what the contracts
/// track of it: the document's text, whether text events are trimmed, and
/// how many events were read.
pub struct XmlTokens<'a> {
    reader: Reader<&'a [u8]>,
    text: Ghost<Seq<char>>,
    trim: Ghost<bool>,
    count: Ghost<nat>,
}

impl<'a> XmlTokens<'a> {
    /// The document being tokenized.
    pub closed spec fn text(&self) -> Seq<char> {
        self.text@
    }

    /// Whether text events are trimmed.
    pub closed spec fn trim(&self) -> bool {
        self.trim@
    }

    /// How many events were read.
    pub closed spec fn count(&self) -> nat {
        self.count@
    }

    /// `quick_xml::Reader::from_str`: a tokenizer over `text` in the default
    /// configuration, which trims no text, before any event.
    #[verifier::external_body]
    pub(crate) fn from_str(text: &'a str) -> (r: XmlTokens<'a>)
        ensures
            r.text() == text@,
            !r.trim(),
            r.count() == 0,
    {
        XmlTokens { reader: Reader::from_str(text), text: Ghost(text@), trim: Ghost(false), count: Ghost(0) }
    }

    /// `quick_xml::reader::Config::trim_text` on the tokenizer's
    /// configuration: whether leading and trailing whitespace of text events
    /// is dropped. Set before the first event.
    #[verifier::external_body]
    pub(crate) fn set_trim_text(&mut self, trim: bool)
        requires
            old(self).count() == 0,
        ensures
            final(self).text() == old(self).text(),
            final(self).trim() == trim,
            final(self).count() == 0,
    {
        self.reader.config_mut().trim_text(trim);
        self.trim = Ghost(trim);
    }

    /// `quick_xml::Reader::read_event`: the next event of the document, its
    /// payload moved into plain values (by [`start_name`],
    /// [`start_attributes`] and [`decode_text`]), or the tokenizer's error.
    /// Which event that is follows from the document, the trimming and the
    /// number of events read before: [`xml_event_at`] names it.
    #[verifier::external_body]
    pub(crate) fn next_event(&mut self) -> (r: Result<XmlEvent, quick_xml::Error>)
        ensures
            r == xml_event_at(old(self).text(), old(self).trim(), old(self).count()),
            final(self).text() == old(self).text(),
            final(self).trim() == old(self).trim(),
            final(self).count() == old(self).count() + 1,
    {
        let r = match self.reader.read_event() {
            Ok(Event::Start(e)) => Ok(XmlEvent::Start { name: start_name(&e), attrs: start_attributes(&e) }),
            Ok(Event::End(_)) => Ok(XmlEvent::End),
            Ok(Event::Empty(e)) => Ok(XmlEvent::Empty { name: start_name(&e), attrs: start_attributes(&e) }),
            Ok(Event::Text(e)) => Ok(XmlEvent::Text { content: decode_text(&e) }),
            Ok(Event::Eof) => Ok(XmlEvent::Eof),
            Ok(_) => Ok(XmlEvent::Other),
            Err(e) => Err(e),
        };
        self.count = Ghost(self.count@ + 1);
        r
    }
}

/// `quick_xml::events::BytesStart::name`: the raw bytes of the tag name,
/// copied (a conversion of [`XmlTokens::next_event`]). The start tag is
/// opaque here, so nothing is stated of them.
#[verifier::external_body]
fn start_name(e: &BytesStart) -> (r: Vec<u8>) {
    e.name().as_ref().to_vec()
}

/// `quick_xml::events::BytesStart::attributes`: every item that the
/// attribute iterator yields, in order, each key and value copied and each
/// `AttrError` turned into `quick_xml::Error` by its `From` impl (a
/// conversion of [`XmlTokens::next_event`]). The start tag is opaque here,
/// so nothing is stated of them.
#[verifier::external_body]
fn start_attributes(e: &BytesStart) -> (r: Vec<RawAttribute>) {
    e.attributes().map(|a| a.map(|a| (a.key.as_ref().to_vec(), a.value.to_vec())).map_err(
        quick_xml::Error::from,
    )).collect()
}

/// `quick_xml::events::BytesText::decode`, the text copied into a `String`
/// and an `EncodingError` turned into `quick_xml::Error` by its `From` impl
/// (a conversion of [`XmlTokens::next_event`]). The event is opaque here,
/// so nothing is stated of the text.
#[verifier::external_body]
fn decode_text(e: &BytesText) -> (r: Result<String, quick_xml::Error>) {
    match e.decode() {
        Ok(s) => Ok(s.into_owned()),
        Err(err) => Err(quick_xml::Error::from(err)),
    }
}

/// `core::str::from_utf8`: the bytes as a string slice exactly when they
/// are valid UTF-8.
#[verifier::external_body]
pub(crate) fn str_from_utf8(bytes: &[u8]) -> (r: Result<&str, core::str::Utf8Error>)
    ensures
        r is Ok <==> vstd::utf8::valid_utf8(bytes@),
        r matches Ok(s) ==> s@ == vstd::utf8::decode_utf8(bytes@),
{
    core::str::from_utf8(bytes)
}

} // verus!
