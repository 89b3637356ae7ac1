//! XML events as plain values, the `quick-xml` calls that produce them, and
//! attribute lookup on start tags.
//!
//! The reader is configured as the hardened PMML reader requires: text is
//! trimmed and empty elements are expanded into a start and an end event.
//! Entities are never expanded into external content.

use vstd::prelude::*;
use quick_xml::events::{BytesStart, BytesEnd, BytesText, BytesCData, BytesDecl, BytesPI, Event};
use quick_xml::events::Event::{Start, End, Empty, Text, CData, Comment, Decl, PI, DocType, Eof};
use quick_xml::Reader;
use crate::error::PmmlError;
use crate::strings::{string_from, concat, str_eq};

verus! {

/// The maximum document size, in bytes, that the PMML reader accepts.
pub const MAX_FILE_BYTES: usize = 104857600;

/// The maximum element nesting depth that the PMML reader accepts.
pub const MAX_DEPTH: usize = 512;

/// One attribute of a start tag: its name and its unescaped value (`None`
/// when the value could not be unescaped).
#[derive(Debug)]
pub struct XmlAttribute {
    pub key: String,
    pub value: Option<String>,
}

/// A start (or empty-element) tag: its name and its well-formed attributes in
/// document order.
#[derive(Debug)]
pub struct XmlTag {
    pub name: String,
    pub attributes: Vec<XmlAttribute>,
}

/// One XML event, as the pull parser reports it.
#[derive(Debug)]
pub enum XmlEvent {
    /// Start tag `<tag ...>`.
    Start(XmlTag),
    /// End tag `</tag>`, with its name.
    End(String),
    /// Empty-element tag `<tag .../>` (not produced when empty elements are expanded).
    Empty(XmlTag),
    /// Character data, unescaped; `None` when unescaping failed.
    Text(Option<String>),
    /// `<![CDATA[...]]>` content.
    CData(String),
    /// Comment content.
    Comment(String),
    /// XML declaration content.
    Decl(String),
    /// Processing instruction content.
    PI(String),
    /// `DOCTYPE` content (never expanded).
    DocType(String),
    /// End of the document.
    Eof,
    /// A parse error, with its message.
    Error(String),
}

#[verifier::external_type_specification]
#[verifier::external_body]
#[verifier::reject_recursive_types(R)]
pub struct ExXmlReader<R>(Reader<R>);

#[verifier::external_type_specification]
pub struct ExXmlEventRaw<'a>(Event<'a>);

#[verifier::external_type_specification]
#[verifier::external_body]
pub struct ExBytesStart<'a>(BytesStart<'a>);

#[verifier::external_type_specification]
#[verifier::external_body]
pub struct ExBytesEnd<'a>(BytesEnd<'a>);

#[verifier::external_type_specification]
#[verifier::external_body]
pub struct ExBytesText<'a>(BytesText<'a>);

#[verifier::external_type_specification]
#[verifier::external_body]
pub struct ExBytesCData<'a>(BytesCData<'a>);

#[verifier::external_type_specification]
#[verifier::external_body]
pub struct ExBytesDecl<'a>(BytesDecl<'a>);

#[verifier::external_type_specification]
#[verifier::external_body]
pub struct ExBytesPI<'a>(BytesPI<'a>);

/// `quick_xml::Reader::from_reader` over a byte slice. Nothing is claimed of
/// the reader beyond its type: it is opaque.
#[verifier::external_body]
pub(crate) fn reader_from_bytes<'a>(bytes: &'a [u8]) -> Reader<&'a [u8]> {
    Reader::from_reader(bytes)
}

/// `quick_xml::reader::Config::trim_text` on the reader's configuration.
#[verifier::external_body]
pub(crate) fn reader_trim_text(reader: &mut Reader<&[u8]>, trim: bool) {
    reader.config_mut().trim_text(trim)
}

/// Sets `quick_xml::reader::Config::expand_empty_elements` on the reader's
/// configuration.
#[verifier::external_body]
pub(crate) fn reader_expand_empty_elements(reader: &mut Reader<&[u8]>, expand: bool) {
    reader.config_mut().expand_empty_elements = expand
}

/// `BytesStart::name` decoded lossily as UTF-8, with the attributes that
/// `BytesStart::attributes` yields without error, each value unescaped by
/// `Attribute::unescape_value` (`None` when that fails). The tag is opaque,
/// so nothing is claimed of the result.
#[verifier::external_body]
fn start_tag(e: BytesStart<'_>) -> XmlTag {
    XmlTag {
        name: String::from_utf8_lossy(e.name().as_ref()).into_owned(),
        attributes: e.attributes().flatten().map(|a| XmlAttribute {
            key: String::from_utf8_lossy(a.key.as_ref()).into_owned(),
            value: a.unescape_value().ok().map(|v| v.into_owned()),
        }).collect(),
    }
}

/// `BytesEnd::name` decoded lossily as UTF-8. The tag is opaque, so nothing
/// is claimed of the result.
#[verifier::external_body]
fn end_name(e: BytesEnd<'_>) -> String {
    String::from_utf8_lossy(e.name().as_ref()).into_owned()
}

/// `BytesText::unescape`: the unescaped text, `None` when unescaping fails.
/// The text is opaque, so nothing is claimed of the result.
#[verifier::external_body]
fn text_unescaped(t: BytesText<'_>) -> Option<String> {
    t.unescape().ok().map(|c| c.into_owned())
}

/// The raw content of a `BytesText` (comment or doctype) decoded lossily as
/// UTF-8. The content is opaque, so nothing is claimed of the result.
#[verifier::external_body]
fn text_raw(t: BytesText<'_>) -> String {
    String::from_utf8_lossy(&t).into_owned()
}

/// The raw content of a `BytesCData` decoded lossily as UTF-8. The content is
/// opaque, so nothing is claimed of the result.
#[verifier::external_body]
fn cdata_raw(c: BytesCData<'_>) -> String {
    String::from_utf8_lossy(&c).into_owned()
}

/// The raw content of a `BytesDecl` decoded lossily as UTF-8. The content is
/// opaque, so nothing is claimed of the result.
#[verifier::external_body]
fn decl_raw(d: BytesDecl<'_>) -> String {
    String::from_utf8_lossy(&d).into_owned()
}

/// The raw content of a `BytesPI` decoded lossily as UTF-8. The content is
/// opaque, so nothing is claimed of the result.
#[verifier::external_body]
fn pi_raw(p: BytesPI<'_>) -> String {
    String::from_utf8_lossy(&p).into_owned()
}

/// A `quick-xml` reader over a document, configured as the PMML reader
/// needs (text trimmed, empty elements expanded), with the document's bytes
/// and the number of events read from it so far. A stream is only built by
/// [`stream_open`] and only advanced by [`stream_next`].
pub struct XmlStream<'a> {
    reader: Reader<&'a [u8]>,
    doc: Ghost<Seq<u8>>,
    pos: Ghost<nat>,
}

impl<'a> View for XmlStream<'a> {
    type V = (Seq<u8>, nat);

    /// The document and the number of events read from it.
    closed spec fn view(&self) -> (Seq<u8>, nat) {
        (self.doc@, self.pos@)
    }
}

/// The name for event number `k` (from 0) that a `quick-xml` reader over
/// `doc`, with text trimmed and empty elements expanded, reports, as an
/// [`XmlEvent`]; a reader error is [`XmlEvent::Error`] with its message.
pub uninterp spec fn xml_event_at(doc: Seq<u8>, k: nat) -> XmlEvent;

/// A stream over `bytes`, before its first event.
pub fn stream_open<'a>(bytes: &'a [u8]) -> (s: XmlStream<'a>)
    ensures
        s@ == (bytes@, 0nat),
{
    let mut reader = reader_from_bytes(bytes);
    reader_trim_text(&mut reader, true);
    reader_expand_empty_elements(&mut reader, true);
    XmlStream { reader, doc: Ghost(bytes@), pos: Ghost(0nat) }
}

/// `quick_xml::Reader::read_event` on the stream's reader, the event
/// made a plain value by the tag and text conversions above and a reader
/// error by its display text: event number `pos` of the document, which
/// [`xml_event_at`] names. The stream's reader has read exactly `pos`
/// events of `doc`, since only [`stream_open`] builds it and only this
/// function advances it.
#[verifier::external_body]
fn stream_next(s: &mut XmlStream<'_>) -> (e: XmlEvent)
    ensures
        e == xml_event_at(old(s)@.0, old(s)@.1),
        final(s)@ == (old(s)@.0, old(s)@.1 + 1),
{
    match s.reader.read_event() {
        Ok(Start(e)) => XmlEvent::Start(start_tag(e)),
        Ok(End(e)) => XmlEvent::End(end_name(e)),
        Ok(Empty(e)) => XmlEvent::Empty(start_tag(e)),
        Ok(Text(t)) => XmlEvent::Text(text_unescaped(t)),
        Ok(CData(c)) => XmlEvent::CData(cdata_raw(c)),
        Ok(Comment(t)) => XmlEvent::Comment(text_raw(t)),
        Ok(Decl(d)) => XmlEvent::Decl(decl_raw(d)),
        Ok(PI(p)) => XmlEvent::PI(pi_raw(p)),
        Ok(DocType(t)) => XmlEvent::DocType(text_raw(t)),
        Ok(Eof) => XmlEvent::Eof,
        Err(e) => XmlEvent::Error(e.to_string()),
    }
}

/// A stream of events that holds no end-of-document marker: reading past its
/// end yields [`XmlEvent::Eof`], forever.
pub open spec fn eof_free(ev: Seq<XmlEvent>) -> bool {
    forall|k: int| 0 <= k < ev.len() ==> !(#[trigger] ev[k] is Eof)
}

/// The events a reader over `doc` reports from event number `from` on, at
/// most `fuel` of them, up to (not including) the first end-of-document
/// event.
pub open spec fn xml_events_from(doc: Seq<u8>, from: nat, fuel: nat) -> Seq<XmlEvent>
    decreases fuel,
{
    if fuel == 0 || xml_event_at(doc, from) is Eof {
        Seq::empty()
    } else {
        seq![xml_event_at(doc, from)] + xml_events_from(doc, from + 1, (fuel - 1) as nat)
    }
}

/// How many events are read at most from a document of `len` bytes.
///
/// Each event the reader reports consumes input, save the end tag of an
/// expanded empty element, which follows a start tag of at least three
/// bytes; a document of `n` bytes therefore yields fewer than `2 * n + 3`
/// events.
pub open spec fn read_budget(len: nat) -> nat {
    if len < (usize::MAX - 3) / 2 {
        (2 * len + 3) as nat
    } else {
        usize::MAX as nat
    }
}

/// The events of document `doc`, in order, up to (not including) the end
/// of the document.
pub open spec fn document_events(doc: Seq<u8>) -> Seq<XmlEvent> {
    xml_events_from(doc, 0, read_budget(doc.len()))
}

/// The events a stream reports from where it stands, as many as
/// [`read_budget`] allows for `len` bytes, up to (not including) the end of
/// the document.
pub fn read_events(s: &mut XmlStream<'_>, len: usize) -> (events: Vec<XmlEvent>)
    ensures
        events@ == xml_events_from(old(s)@.0, old(s)@.1, read_budget(len as nat)),
        eof_free(events@),
{
    let mut events: Vec<XmlEvent> = Vec::new();
    let budget: usize = if len < (usize::MAX - 3) / 2 {
        2 * len + 3
    } else {
        usize::MAX
    };
    let ghost doc = s@.0;
    let ghost p0 = s@.1;
    let mut n: usize = 0;
    while n < budget
        invariant_except_break
            n <= budget,
            budget == read_budget(len as nat),
            s@ == (doc, (p0 + n) as nat),
            eof_free(events@),
            events@ + xml_events_from(doc, (p0 + n) as nat, (budget - n) as nat) == xml_events_from(
                doc,
                p0,
                budget as nat,
            ),
        ensures
            eof_free(events@),
            events@ == xml_events_from(doc, p0, budget as nat),
        decreases budget - n,
    {
        let ghost rest = xml_events_from(doc, (p0 + n) as nat, (budget - n) as nat);
        let ev = stream_next(s);
        if let XmlEvent::Eof = ev {
            assert(rest =~= Seq::<XmlEvent>::empty());
            assert(events@ + rest =~= events@);
            break;
        }
        let ghost tail = xml_events_from(doc, (p0 + n + 1) as nat, (budget - n - 1) as nat);
        assert(rest == seq![ev] + tail);
        events.push(ev);
        assert(events@ + tail =~= (events@.drop_last() + rest));
        n = n + 1;
    }
    proof {
        if n == budget {
            assert(events@ + Seq::<XmlEvent>::empty() =~= events@);
        }
    }
    events
}

/// The events of a document, in order, up to (not including) the end of the
/// document, as read by a reader that trims text and expands empty elements.
pub fn read_all_events(bytes: &[u8]) -> (events: Vec<XmlEvent>)
    ensures
        events@ == document_events(bytes@),
        eof_free(events@),
{
    let mut s = stream_open(bytes);
    read_events(&mut s, bytes.len())
}

// ---------- attributes ----------

/// The view of an optional string.
pub open spec fn opt_view(o: Option<String>) -> Option<Seq<char>> {
    match o {
        Some(s) => Some(s@),
        None => None,
    }
}

/// The value of the first attribute named `key`, if any; `None` also when
/// that first attribute's value could not be unescaped.
pub open spec fn attr_of(attrs: Seq<XmlAttribute>, key: Seq<char>) -> Option<Seq<char>>
    decreases attrs.len(),
{
    if attrs.len() == 0 {
        None
    } else if attrs[0].key@ == key {
        opt_view(attrs[0].value)
    } else {
        attr_of(attrs.drop_first(), key)
    }
}

/// The value of attribute `key` of tag `t`, as [`attr`] looks it up.
pub open spec fn tag_attr(t: XmlTag, key: Seq<char>) -> Option<Seq<char>> {
    attr_of(t.attributes@, key)
}

/// Copy of an optional string.
pub fn clone_opt(o: &Option<String>) -> (r: Option<String>)
    ensures
        opt_view(r) == opt_view(*o),
{
    match o {
        Some(s) => Some(s.clone()),
        None => None,
    }
}

/// The value of the first attribute of `tag` named `key`.
pub fn attr(tag: &XmlTag, key: &str) -> (r: Option<String>)
    ensures
        opt_view(r) == tag_attr(*tag, key@),
{
    let mut i: usize = 0;
    let ghost all = tag.attributes@;
    assert(all.skip(0) =~= all);
    while i < tag.attributes.len()
        invariant
            i <= tag.attributes.len(),
            all == tag.attributes@,
            attr_of(all, key@) == attr_of(all.skip(i as int), key@),
        decreases tag.attributes.len() - i,
    {
        let a = &tag.attributes[i];
        assert(all.skip(i as int)[0] == *a);
        if str_eq(a.key.as_str(), key) {
            return clone_opt(&a.value);
        }
        assert(all.skip(i as int).drop_first() =~= all.skip(i + 1));
        i = i + 1;
    }
    None
}

/// The message of a missing required attribute.
pub open spec fn missing_attr_message(key: Seq<char>) -> Seq<char> {
    "missing attribute "@ + key
}

/// Whether `e` is the parse error raised for a missing required attribute
/// `key` in context `ctx`.
pub open spec fn is_missing_attr(e: PmmlError, ctx: Seq<char>, key: Seq<char>) -> bool {
    e matches PmmlError::ParseError { context, message } && context@ == ctx && message@
        == missing_attr_message(key)
}

/// The value of the required attribute `key` of `tag`; a parse error in
/// context `ctx` when it is absent.
pub fn attr_required(tag: &XmlTag, key: &str, ctx: &str) -> (r: Result<String, PmmlError>)
    ensures
        match r {
            Ok(v) => tag_attr(*tag, key@) == Some(v@),
            Err(e) => tag_attr(*tag, key@) is None && is_missing_attr(e, ctx@, key@),
        },
{
    match attr(tag, key) {
        Some(v) => Ok(v),
        None => Err(PmmlError::ParseError {
            context: string_from(ctx),
            message: concat("missing attribute ", key),
        }),
    }
}

/// Whether `name` equals the literal `lit`.
pub fn name_is(name: &String, lit: &str) -> (r: bool)
    ensures
        r == (name@ == lit@),
{
    str_eq(name.as_str(), lit)
}

} // verus!
