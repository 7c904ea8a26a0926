//! XML documents as sequences of events, read by `quick_xml`.

use crate::plain_xml::{events_of, plain, written, Markup};
use quick_xml::events::{BytesStart, Event};
use quick_xml::Reader;
use std::io::Cursor;
use vstd::prelude::*;

verus! {

/// An attribute of a tag, or the message of why it is malformed.
#[derive(Debug, Clone)]
pub enum Attribute {
    Pair { key: Vec<u8>, local: Vec<u8>, value: Vec<u8> },
    Bad(String),
}

/// The local name of a tag and its attributes in order.
#[derive(Debug, Clone)]
pub struct Tag {
    pub name: Vec<u8>,
    pub attributes: Vec<Attribute>,
}

/// One event of a document.
#[derive(Debug, Clone)]
pub enum XmlEvent {
    Start(Tag),
    Empty(Tag),
    /// An end tag, with its local name.
    End(Vec<u8>),
    /// Text with its line ends normalised; empty where it is not UTF-8.
    Text(String),
    CData(Vec<u8>),
    /// A declaration, a comment, an entity reference and the like.
    Other,
    Eof,
    /// Malformed XML, with a message.
    Error(String),
}

/// An attribute as contracts speak of it.
pub enum AttributeItem {
    Pair { key: Seq<u8>, local: Seq<u8>, value: Seq<u8> },
    Bad(Seq<char>),
}

/// A tag as contracts speak of it.
pub struct TagItem {
    pub name: Seq<u8>,
    pub attributes: Seq<AttributeItem>,
}

/// An event as contracts speak of it.
pub enum XmlItem {
    Start(TagItem),
    Empty(TagItem),
    End(Seq<u8>),
    Text(Seq<char>),
    CData(Seq<u8>),
    Other,
    Eof,
    Error(Seq<char>),
}

impl View for Attribute {
    type V = AttributeItem;

    open spec fn view(&self) -> AttributeItem {
        match self {
            Attribute::Pair { key, local, value } => AttributeItem::Pair {
                key: key@,
                local: local@,
                value: value@,
            },
            Attribute::Bad(message) => AttributeItem::Bad(message@),
        }
    }
}

/// Attributes as contracts speak of them.
pub open spec fn attribute_items(attributes: Seq<Attribute>) -> Seq<AttributeItem> {
    attributes.map_values(|a: Attribute| a@)
}

impl View for Tag {
    type V = TagItem;

    open spec fn view(&self) -> TagItem {
        TagItem { name: self.name@, attributes: attribute_items(self.attributes@) }
    }
}

impl View for XmlEvent {
    type V = XmlItem;

    open spec fn view(&self) -> XmlItem {
        match self {
            XmlEvent::Start(tag) => XmlItem::Start(tag@),
            XmlEvent::Empty(tag) => XmlItem::Empty(tag@),
            XmlEvent::End(name) => XmlItem::End(name@),
            XmlEvent::Text(text) => XmlItem::Text(text@),
            XmlEvent::CData(bytes) => XmlItem::CData(bytes@),
            XmlEvent::Other => XmlItem::Other,
            XmlEvent::Eof => XmlItem::Eof,
            XmlEvent::Error(message) => XmlItem::Error(message@),
        }
    }
}

/// Whether an event is the last of its document. An error is not: what follows an
/// ill-formed part can be read.
pub open spec fn is_last(item: XmlItem) -> bool {
    item is Eof
}

/// Whether a run of events ends with the document's last event and holds no
/// other such event.
pub open spec fn ends_once(items: Seq<XmlItem>) -> bool {
    &&& items.len() > 0
    &&& is_last(items.last())
    &&& forall|i: int| 0 <= i < items.len() - 1 ==> !is_last(#[trigger] items[i])
}

/// A reader of XML, of `quick_xml`.
#[verifier::external_type_specification]
#[verifier::external_body]
#[verifier::reject_recursive_types(R)]
pub struct ExReader<R>(Reader<R>);

/// Bytes in memory as a source to read from, of std.
#[verifier::external_type_specification]
#[verifier::external_body]
#[verifier::reject_recursive_types(T)]
pub struct ExCursor<T>(Cursor<T>);

/// A start tag or an empty-element tag, of `quick_xml`.
#[verifier::external_type_specification]
#[verifier::external_body]
pub struct ExBytesStart<'a>(BytesStart<'a>);

/// The events that a reader has yet to hand out.
pub uninterp spec fn pending_events(reader: Reader<Cursor<Vec<u8>>>) -> Seq<XmlItem>;

/// The events of a document, up to its end.
pub uninterp spec fn document_events(bytes: Seq<u8>) -> Seq<XmlItem>;

/// The local name and the attributes of a tag.
pub uninterp spec fn tag_item(start: BytesStart<'_>) -> TagItem;

/// An event with its tag still unread.
pub(crate) enum RawEvent {
    Start(BytesStart<'static>),
    Empty(BytesStart<'static>),
    /// Text, `None` where it cannot be decoded.
    Text(Option<String>),
    Read(XmlEvent),
}

/// A raw event as contracts speak of it.
pub(crate) open spec fn raw_item(raw: RawEvent) -> XmlItem {
    match raw {
        RawEvent::Start(start) => XmlItem::Start(tag_item(start)),
        RawEvent::Empty(start) => XmlItem::Empty(tag_item(start)),
        RawEvent::Text(Some(text)) => XmlItem::Text(text@),
        RawEvent::Text(None) => XmlItem::Text(Seq::empty()),
        RawEvent::Read(event) => event@,
    }
}

/// `Reader::from_reader` on bytes in memory: a reader at the start of the
/// document. The document ends with one event, the end of the input; errors may come
/// before it. A plain document has one event for each of its pieces: a tag goes to
/// the first `>` outside quotes and is an empty-element tag where `/` stands before
/// that, an end tag is accepted where it has the name of the
/// element that started last, a declaration goes to the first `?>`, and text goes to the
/// next `<`.
#[verifier::external_body]
pub(crate) fn open_document(bytes: Vec<u8>) -> (reader: Reader<Cursor<Vec<u8>>>)
    ensures
        pending_events(reader) == document_events(bytes@),
        ends_once(pending_events(reader)),
        forall|markup: Seq<Markup>|
            plain(markup) && bytes@ == #[trigger] written(markup) ==> events_of(
                pending_events(reader),
                markup,
            ),
{
    Reader::from_reader(Cursor::new(bytes))
}

/// `Reader::read_event_into`: hands out the next event. Text is decoded by
/// `BytesText::xml10_content`; text that cannot be decoded counts as empty.
#[verifier::external_body]
pub(crate) fn read_raw(reader: &mut Reader<Cursor<Vec<u8>>>) -> (raw: RawEvent)
    requires
        pending_events(*old(reader)).len() > 0,
    ensures
        raw_item(raw) == pending_events(*old(reader))[0],
        pending_events(*final(reader)) == pending_events(*old(reader)).skip(1),
{
    RawEvent::Read(match reader.read_event_into(&mut Vec::new()) {
        Ok(Event::Start(e)) => return RawEvent::Start(e.into_owned()),
        Ok(Event::Empty(e)) => return RawEvent::Empty(e.into_owned()),
        Ok(Event::End(e)) => XmlEvent::End(e.local_name().as_ref().to_vec()),
        Ok(Event::Text(t)) => {
            return RawEvent::Text(t.xml10_content().ok().map(|text| text.into_owned()))
        },
        Ok(Event::CData(t)) => XmlEvent::CData(t.to_vec()),
        Ok(Event::Eof) => XmlEvent::Eof,
        Ok(_) => XmlEvent::Other,
        Err(e) => XmlEvent::Error(e.to_string()),
    })
}

/// `BytesStart::local_name` and `BytesStart::attributes`: the name of a tag
/// without its prefix, and the attributes in order.
#[verifier::external_body]
pub(crate) fn read_tag(start: &BytesStart<'_>) -> (tag: Tag)
    ensures
        tag@ == tag_item(*start),
{
    let name = start.local_name().as_ref().to_vec();
    let attributes = start.attributes().map(|a| match a {
        Ok(a) => Attribute::Pair {
            key: a.key.as_ref().to_vec(),
            local: a.key.local_name().as_ref().to_vec(),
            value: a.value.to_vec(),
        },
        Err(e) => Attribute::Bad(e.to_string()),
    });
    Tag { name, attributes: attributes.collect() }
}

/// A document that is being read. After its last event it goes on handing out
/// `Eof`.
pub struct XmlDocument {
    reader: Reader<Cursor<Vec<u8>>>,
    held: Option<XmlEvent>,
    cut: Option<String>,
    ended: bool,
}

/// The events that follow the first one of a run.
pub open spec fn events_after(items: Seq<XmlItem>) -> Seq<XmlItem> {
    if is_last(items[0]) {
        seq![XmlItem::Eof]
    } else {
        items.skip(1)
    }
}

/// What is left of a run that ends once ends once.
pub proof fn lemma_events_after(items: Seq<XmlItem>)
    requires
        ends_once(items),
    ensures
        ends_once(events_after(items)),
        !is_last(items[0]) ==> events_after(items).len() < items.len(),
{
    if !is_last(items[0]) {
        let rest = items.skip(1);
        assert(rest.last() == items.last());
        assert forall|i: int| 0 <= i < rest.len() - 1 implies !is_last(#[trigger] rest[i]) by {
            assert(rest[i] == items[i + 1]);
        }
    }
}

/// The events of a document of which only a first part can be read, given the events
/// of that part: behind them the reason comes as an error, in place of the one that
/// the part ends with where it ends within a tag.
pub open spec fn cut_short(items: Seq<XmlItem>, reason: Seq<char>) -> Seq<XmlItem> {
    let kept = if items.len() >= 2 && items[items.len() - 2] is Error {
        items.len() - 2
    } else {
        items.len() - 1
    };
    items.take(kept).push(XmlItem::Error(reason)).push(XmlItem::Eof)
}

proof fn lemma_cut_short(items: Seq<XmlItem>, reason: Seq<char>)
    requires
        ends_once(items),
    ensures
        ends_once(cut_short(items, reason)),
        is_last(items[0]) || items[0] is Error && is_last(items[1]) ==> cut_short(items, reason)
            == seq![XmlItem::Error(reason), XmlItem::Eof],
        !(is_last(items[0]) || items[0] is Error && is_last(items[1])) ==> cut_short(
            items,
            reason,
        )[0] == items[0] && cut_short(items, reason).skip(1) == cut_short(items.skip(1), reason),
{
    let cut = cut_short(items, reason);
    assert forall|i: int| 0 <= i < cut.len() - 1 implies !is_last(#[trigger] cut[i]) by {
        if i < cut.len() - 2 {
            assert(cut[i] == items[i]);
        }
    }
    if is_last(items[0]) {
        assert(items.len() == 1);
        assert(cut =~= seq![XmlItem::Error(reason), XmlItem::Eof]);
    } else if items[0] is Error && is_last(items[1]) {
        assert(items.len() == 2);
        assert(cut =~= seq![XmlItem::Error(reason), XmlItem::Eof]);
    } else {
        assert(items.len() >= 2);
        assert(items.len() == 2 ==> is_last(items[1]));
        assert(cut.skip(1) =~= cut_short(items.skip(1), reason));
    }
}

impl XmlDocument {
    /// The events that have yet to be read of the bytes at hand.
    pub closed spec fn unread(&self) -> Seq<XmlItem> {
        match self.held {
            Some(event) => seq![event@] + pending_events(self.reader),
            None => pending_events(self.reader),
        }
    }

    /// The events that are yet to come.
    pub closed spec fn pending(&self) -> Seq<XmlItem> {
        if self.ended {
            seq![XmlItem::Eof]
        } else {
            match self.cut {
                Some(reason) => cut_short(self.unread(), reason@),
                None => self.unread(),
            }
        }
    }

    /// Whether the events that have yet to be read end once.
    pub closed spec fn unread_ends(&self) -> bool {
        self.ended || ends_once(self.unread())
    }

    /// Whether what is to come ends once.
    pub open spec fn wf(&self) -> bool {
        self.unread_ends() && ends_once(self.pending())
    }

    pub fn new(bytes: Vec<u8>) -> (document: Self)
        ensures
            document.pending() == document_events(bytes@),
            document.wf(),
            forall|markup: Seq<Markup>|
                plain(markup) && bytes@ == #[trigger] written(markup) ==> events_of(
                    document.pending(),
                    markup,
                ),
    {
        XmlDocument { reader: open_document(bytes), held: None, cut: None, ended: false }
    }

    /// A document of which only a first part can be read, for the given reason.
    pub fn cut(bytes: Vec<u8>, reason: String) -> (document: Self)
        ensures
            document.pending() == cut_short(document_events(bytes@), reason@),
            document.wf(),
    {
        let reader = open_document(bytes);
        proof {
            lemma_cut_short(pending_events(reader), reason@);
        }
        XmlDocument { reader, held: None, cut: Some(reason), ended: false }
    }

    /// Reads the next event of the bytes at hand.
    fn read(&mut self) -> (event: XmlEvent)
        requires
            old(self).unread().len() > 0,
        ensures
            event@ == old(self).unread()[0],
            final(self).unread() == old(self).unread().skip(1),
            final(self).held is None,
            final(self).cut == old(self).cut,
            final(self).ended == old(self).ended,
    {
        if let Some(event) = self.held.take() {
            proof {
                assert(self.unread() =~= old(self).unread().skip(1));
            }
            return event;
        }
        match read_raw(&mut self.reader) {
            RawEvent::Start(start) => XmlEvent::Start(read_tag(&start)),
            RawEvent::Empty(start) => XmlEvent::Empty(read_tag(&start)),
            RawEvent::Text(Some(text)) => XmlEvent::Text(text),
            RawEvent::Text(None) => XmlEvent::Text(String::new()),
            RawEvent::Read(event) => event,
        }
    }

    /// Hands out the next event.
    pub fn next(&mut self) -> (event: XmlEvent)
        requires
            old(self).wf(),
        ensures
            event@ == old(self).pending()[0],
            final(self).pending() == events_after(old(self).pending()),
            final(self).wf(),
            !is_last(event@) ==> final(self).pending().len() < old(self).pending().len(),
    {
        proof {
            lemma_events_after(self.pending());
        }
        if self.ended {
            return XmlEvent::Eof;
        }
        let ghost due = self.unread();
        proof {
            lemma_events_after(due);
            if let Some(reason) = &self.cut {
                lemma_cut_short(due, reason@);
                if !is_last(due[0]) {
                    lemma_events_after(due.skip(1));
                    lemma_cut_short(due.skip(1), reason@);
                }
            }
        }
        let event = self.read();
        let reason = match &self.cut {
            Some(reason) => reason.as_str().to_owned(),
            None => {
                if let XmlEvent::Eof = event {
                    self.ended = true;
                }
                return event;
            },
        };
        match event {
            XmlEvent::Eof => {
                self.ended = true;
                proof {
                    assert(old(self).pending().skip(1) =~= seq![XmlItem::Eof]);
                }
                XmlEvent::Error(reason)
            },
            XmlEvent::Error(message) => {
                let following = self.read();
                if let XmlEvent::Eof = following {
                    self.ended = true;
                    proof {
                        assert(old(self).pending().skip(1) =~= seq![XmlItem::Eof]);
                    }
                    return XmlEvent::Error(reason);
                }
                self.held = Some(following);
                proof {
                    assert(self.unread() =~= due.skip(1));
                }
                XmlEvent::Error(message)
            },
            _ => event,
        }
    }
}

/// A document that can be read in part has the events of that part, but for an error that
/// they end with; then comes the reason, once, and the end.
pub proof fn law_cut_document(items: Seq<XmlItem>, reason: Seq<char>)
    requires
        ends_once(items),
    ensures
        ({
            let cut = cut_short(items, reason);
            let n = cut.len() - 2;
            &&& cut[n + 1] is Eof
            &&& cut[n] == XmlItem::Error(reason)
            &&& n <= items.len() - 1
            &&& items.len() - 2 <= n
            &&& forall|i: int| 0 <= i < n ==> cut[i] == #[trigger] items[i]
            &&& n == items.len() - 2 ==> items[n] is Error
        }),
{
}

} // verus!
