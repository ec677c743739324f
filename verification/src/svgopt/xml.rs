//! A page as a sequence of markup events.
//!
//! The events are read by the crate `quick_xml`. Nothing in this file is
//! proved. What a reader hands out depends on the bytes of the page and on
//! how many events were read before, and on nothing else; the trusted
//! items say no more than that, over names for what the reader gives.

use vstd::prelude::*;

verus! {

/// A reader of `quick_xml` over the bytes of one document, together with
/// how far it has read.
#[verifier::external_body]
pub struct XmlReader<'a> {
    inner: quick_xml::Reader<&'a [u8]>,
}

/// An event of `quick_xml`: a tag, text, a comment, a declaration or the
/// end of the document.
#[verifier::external_type_specification]
#[verifier::external_body]
pub struct ExEvent<'a>(quick_xml::events::Event<'a>);

/// An error of `quick_xml`.
#[verifier::external_type_specification]
#[verifier::external_body]
pub struct ExError(quick_xml::Error);

/// An attribute of an element: its name and its value, the value as it
/// stands in the document, with whatever is escaped left escaped.
#[derive(Debug, PartialEq, Eq)]
pub struct Attribute {
    pub key: Vec<u8>,
    pub value: Vec<u8>,
}

/// What an attribute says: its name and its value.
pub struct AttributeText {
    pub key: Seq<u8>,
    pub value: Seq<u8>,
}

impl View for Attribute {
    type V = AttributeText;

    open spec fn view(&self) -> AttributeText {
        AttributeText { key: self.key@, value: self.value@ }
    }
}

/// What a list of attributes says.
pub open spec fn texts(attrs: Seq<Attribute>) -> Seq<AttributeText> {
    Seq::new(attrs.len(), |i: int| attrs[i]@)
}

/// What kind of event it is and, for a tag, the name of the element.
#[derive(Debug, PartialEq, Eq)]
pub enum Tag {
    /// An opening tag.
    Start(Vec<u8>),
    /// The tag of an element without content.
    Empty(Vec<u8>),
    /// A closing tag.
    End(Vec<u8>),
    /// The end of the document.
    Eof,
    /// Anything else: text, a comment, a declaration.
    Other,
}

/// What a tag says.
pub enum TagText {
    Start(Seq<u8>),
    Empty(Seq<u8>),
    End(Seq<u8>),
    Eof,
    Other,
}

impl View for Tag {
    type V = TagText;

    open spec fn view(&self) -> TagText {
        match *self {
            Tag::Start(name) => TagText::Start(name@),
            Tag::Empty(name) => TagText::Empty(name@),
            Tag::End(name) => TagText::End(name@),
            Tag::Eof => TagText::Eof,
            Tag::Other => TagText::Other,
        }
    }
}

/// What an event says: its tag and, if its attributes can be read, its
/// attributes. An event that is no opening or empty tag has the empty
/// list.
pub struct EventText {
    pub tag: TagText,
    pub attrs: Option<Seq<AttributeText>>,
}

/// A blank as the reader knows it: space, tab, line feed or carriage
/// return.
pub open spec fn is_reader_blank(b: u8) -> bool {
    b == 0x20 || b == 0x09 || b == 0x0a || b == 0x0d
}

/// The word `DOCTYPE`, in capitals or not, stands behind `<!` at `i`.
pub open spec fn doctype_at(bytes: Seq<u8>, i: int) -> bool {
    &&& 0 <= i
    &&& i + 9 <= bytes.len()
    &&& bytes[i] == 0x3c
    &&& bytes[i + 1] == 0x21
    &&& (bytes[i + 2] == 0x44 || bytes[i + 2] == 0x64)
    &&& (bytes[i + 3] == 0x4f || bytes[i + 3] == 0x6f)
    &&& (bytes[i + 4] == 0x43 || bytes[i + 4] == 0x63)
    &&& (bytes[i + 5] == 0x54 || bytes[i + 5] == 0x74)
    &&& (bytes[i + 6] == 0x59 || bytes[i + 6] == 0x79)
    &&& (bytes[i + 7] == 0x50 || bytes[i + 7] == 0x70)
    &&& (bytes[i + 8] == 0x45 || bytes[i + 8] == 0x65)
}

/// A declaration of the document type without a name starts at `i`: the
/// word is followed by nothing but blanks up to the `>` at `end`.
pub open spec fn nameless_doctype_at(bytes: Seq<u8>, i: int, end: int) -> bool {
    &&& doctype_at(bytes, i)
    &&& i + 9 <= end < bytes.len()
    &&& bytes[end] == 0x3e
    &&& forall|k: int| i + 9 <= k < end ==> is_reader_blank(#[trigger] bytes[k])
}

/// The bytes hold a declaration of the document type without a name. The
/// reader does not take such a page.
pub open spec fn has_nameless_doctype(bytes: Seq<u8>) -> bool {
    exists|i: int, end: int| nameless_doctype_at(bytes, i, end)
}

/// The bytes that a reader was opened on.
pub uninterp spec fn reader_page(reader: XmlReader) -> Seq<u8>;

/// How many events a reader has been asked for.
pub uninterp spec fn reader_reads(reader: XmlReader) -> nat;

/// What a reader over the bytes `xml` gives when it is asked for an event
/// for the time numbered `n`, counted from 0: what the event says, or
/// `None` if the reader refuses.
pub uninterp spec fn page_event(xml: Seq<u8>, n: nat) -> Option<EventText>;

/// Where a reader over the bytes `xml` stands when it has been asked for
/// `n` events.
pub uninterp spec fn page_place(xml: Seq<u8>, n: nat) -> nat;

/// What an event says of its tag.
pub uninterp spec fn event_tag(event: quick_xml::events::Event) -> TagText;

/// What an event says of its attributes, if they can be read.
pub uninterp spec fn event_attrs(event: quick_xml::events::Event) -> Option<Seq<AttributeText>>;

/// What an event says.
pub open spec fn event_text(event: quick_xml::events::Event) -> EventText {
    EventText { tag: event_tag(event), attrs: event_attrs(event) }
}

/// `Reader::from_bytes` of `quick_xml`: a reader at the start of `xml`,
/// which has not been asked for anything yet.
#[verifier::external_body]
pub(crate) fn open_reader<'a>(xml: &'a [u8]) -> (reader: XmlReader<'a>)
    ensures
        reader_page(reader) == xml@,
        reader_reads(reader) == 0,
{
    XmlReader { inner: quick_xml::Reader::from_bytes(xml) }
}

/// `Reader::read_event_unbuffered` of `quick_xml`: the next event, or the
/// error that the reader ran into. Which of the two it is, and what the
/// event says, depends on the page and on how many events were read before
/// alone. A page with a declaration of the document type without a name is
/// left out: the reader does not return on it.
#[verifier::external_body]
pub(crate) fn next_event<'a>(reader: &mut XmlReader<'a>) -> (event: Result<
    quick_xml::events::Event<'a>,
    quick_xml::Error,
>)
    requires
        !has_nameless_doctype(reader_page(*old(reader))),
    ensures
        reader_page(*final(reader)) == reader_page(*old(reader)),
        reader_reads(*final(reader)) == reader_reads(*old(reader)) + 1,
        match event {
            Ok(e) => page_event(reader_page(*old(reader)), reader_reads(*old(reader))) == Some(
                event_text(e),
            ),
            Err(_) => page_event(reader_page(*old(reader)), reader_reads(*old(reader))) is None,
        },
{
    reader.inner.read_event_unbuffered()
}

/// `Reader::buffer_position` of `quick_xml`: how many bytes the reader has
/// gone through, which depends on the page and on how many events were read
/// alone. Nothing is claimed of the number itself; callers check it against
/// the length of the document.
#[verifier::external_body]
pub(crate) fn position(reader: &XmlReader) -> (at: usize)
    ensures
        at == page_place(reader_page(*reader), reader_reads(*reader)),
{
    reader.inner.buffer_position()
}

/// Tells the variants of an event of `quick_xml` apart and copies the name
/// of a tag, as `BytesStart::name` and `BytesEnd::name` return it. The
/// result is what the event says of its tag.
#[verifier::external_body]
pub(crate) fn tag_of(event: &quick_xml::events::Event) -> (tag: Tag)
    ensures
        tag@ == event_tag(*event),
{
    match event {
        quick_xml::events::Event::Start(e) => Tag::Start(e.name().to_vec()),
        quick_xml::events::Event::Empty(e) => Tag::Empty(e.name().to_vec()),
        quick_xml::events::Event::End(e) => Tag::End(e.name().to_vec()),
        quick_xml::events::Event::Eof => Tag::Eof,
        _ => Tag::Other,
    }
}

/// `BytesStart::attributes` of `quick_xml`: the attributes of an opening or
/// empty tag in their order, or the error that an attribute is malformed or
/// given twice. An event that is no such tag has no attributes. The result
/// is what the event says of its attributes.
#[verifier::external_body]
pub(crate) fn attributes_of(event: &quick_xml::events::Event) -> (attrs: Result<
    Vec<Attribute>,
    quick_xml::Error,
>)
    ensures
        match attrs {
            Ok(a) => event_attrs(*event) == Some(texts(a@)),
            Err(_) => event_attrs(*event) is None,
        },
{
    match event {
        quick_xml::events::Event::Start(e) | quick_xml::events::Event::Empty(e) => e
            .attributes()
            .map(|a| a.map(|a| Attribute { key: a.key.to_vec(), value: a.value.into_owned() }))
            .collect::<Result<Vec<Attribute>, _>>()
            .map_err(quick_xml::Error::from),
        _ => Ok(Vec::new()),
    }
}

} // verus!
