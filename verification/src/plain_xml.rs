//! Plain XML: declarations, tags and text, without comments, entities and CDATA. What
//! its events are can be told from what it is made of.

use crate::arrow::text_of;
use crate::xml::XmlItem;
use vstd::prelude::*;
use vstd::utf8::*;

verus! {

/// A piece of a plain document.
pub enum Markup {
    /// What stands between `<?` and `?>`.
    Declaration(Seq<u8>),
    /// A start tag: its name, and what follows the name.
    Open(Seq<u8>, Seq<u8>),
    /// An end tag.
    Close(Seq<u8>),
    /// An empty-element tag: its name, and what follows the name.
    Empty(Seq<u8>, Seq<u8>),
    Chars(Seq<u8>),
}

/// The bytes of a piece.
pub open spec fn markup_bytes(markup: Markup) -> Seq<u8> {
    match markup {
        Markup::Declaration(content) => seq![60u8, 63] + content + seq![63u8, 62],
        Markup::Open(name, attributes) => seq![60u8] + name + attributes + seq![62u8],
        Markup::Close(name) => seq![60u8, 47] + name + seq![62u8],
        Markup::Empty(name, attributes) => seq![60u8] + name + attributes + seq![47u8, 62],
        Markup::Chars(bytes) => bytes,
    }
}

/// The bytes of pieces, one after the other.
pub open spec fn written(markup: Seq<Markup>) -> Seq<u8>
    decreases markup.len(),
{
    if markup.len() == 0 {
        Seq::empty()
    } else {
        markup_bytes(markup[0]) + written(markup.skip(1))
    }
}

/// Whether a byte does not stand among others.
pub open spec fn without(bytes: Seq<u8>, byte: u8) -> bool {
    forall|i: int| 0 <= i < bytes.len() ==> #[trigger] bytes[i] != byte
}

/// Whether a byte is an ASCII letter.
pub open spec fn plain_letter(byte: u8) -> bool {
    65 <= byte <= 90 || 97 <= byte <= 122
}

/// Whether a name is made of ASCII letters and digits, a letter first.
pub open spec fn plain_name(name: Seq<u8>) -> bool {
    &&& name.len() > 0
    &&& plain_letter(name[0])
    &&& forall|i: int|
        0 <= i < name.len() ==> plain_letter(#[trigger] name[i]) || 48 <= name[i] <= 57
}

/// The quote, single or double, that bytes leave open; zero where they leave none.
pub open spec fn open_quote(bytes: Seq<u8>) -> u8
    decreases bytes.len(),
{
    if bytes.len() == 0 {
        0
    } else {
        let quote = open_quote(bytes.drop_last());
        let byte = bytes.last();
        if quote == 0 && (byte == 34 || byte == 39) {
            byte
        } else if quote == byte {
            0
        } else {
            quote
        }
    }
}

/// Whether bytes can follow a name in a tag: none at all, or, after white space, such
/// that every quote is closed and no tag ends outside quotes.
pub open spec fn plain_attributes(bytes: Seq<u8>) -> bool {
    bytes.len() == 0 || {
        &&& bytes[0] == 32 || bytes[0] == 9 || bytes[0] == 10 || bytes[0] == 13
        &&& bytes.last() != 47
        &&& open_quote(bytes) == 0
        &&& without(bytes, 60)
        &&& forall|i: int|
            0 <= i < bytes.len() && #[trigger] bytes[i] == 62 ==> open_quote(bytes.take(i)) != 0
    }
}

/// Whether bytes are text without tags and entities.
pub open spec fn plain_text(bytes: Seq<u8>) -> bool {
    without(bytes, 60) && without(bytes, 38)
}

/// Whether a piece is what it says.
pub open spec fn plain_piece(markup: Markup) -> bool {
    match markup {
        Markup::Declaration(content) => content.len() > 0 && without(content, 62),
        Markup::Open(name, attributes) => plain_name(name) && plain_attributes(attributes),
        Markup::Close(name) => plain_name(name),
        Markup::Empty(name, attributes) => plain_name(name) && plain_attributes(attributes),
        Markup::Chars(bytes) => bytes.len() > 0 && plain_text(bytes),
    }
}

/// Whether pieces can follow where the elements in `open` have started and, as
/// `after_text` says, text has just come: every end tag ends the element that started
/// last, and text is not followed by text.
pub open spec fn plain_from(markup: Seq<Markup>, open: Seq<Seq<u8>>, after_text: bool) -> bool
    decreases markup.len(),
{
    markup.len() == 0 || {
        let rest = markup.skip(1);
        &&& plain_piece(markup[0])
        &&& match markup[0] {
            Markup::Declaration(_) => plain_from(rest, open, false),
            Markup::Empty(_, _) => plain_from(rest, open, false),
            Markup::Open(name, _) => plain_from(rest, open.push(name), false),
            Markup::Close(name) => open.len() > 0 && open.last() == name && plain_from(
                rest,
                open.drop_last(),
                false,
            ),
            Markup::Chars(_) => !after_text && plain_from(rest, open, true),
        }
    }
}

/// Whether pieces make a plain document. It does not begin with text.
pub open spec fn plain(markup: Seq<Markup>) -> bool {
    plain_from(markup, Seq::empty(), true)
}

/// Whether an event is that of a piece. Of a tag only the name is told, and of text with
/// carriage returns only that it is text; text that is not UTF-8 counts as empty.
pub open spec fn event_of(item: XmlItem, markup: Markup) -> bool {
    match markup {
        Markup::Declaration(_) => item is Other,
        Markup::Open(name, _) => item matches XmlItem::Start(tag) && tag.name == name,
        Markup::Close(name) => item == XmlItem::End(name),
        Markup::Empty(name, _) => item matches XmlItem::Empty(tag) && tag.name == name,
        Markup::Chars(bytes) => item matches XmlItem::Text(text) && (without(bytes, 13)
            || !valid_utf8(bytes) ==> text == text_of(bytes)),
    }
}

/// Whether events are those of pieces, one for each, and the end.
pub open spec fn events_of(items: Seq<XmlItem>, markup: Seq<Markup>) -> bool
    decreases markup.len(),
{
    if markup.len() == 0 {
        items.len() == 1 && items[0] is Eof
    } else {
        items.len() > 0 && event_of(items[0], markup[0]) && events_of(
            items.skip(1),
            markup.skip(1),
        )
    }
}

/// The events of the first of some pieces, and of the others.
pub proof fn lemma_first_event(items: Seq<XmlItem>, piece: Markup, rest: Seq<Markup>)
    requires
        events_of(items, seq![piece] + rest),
    ensures
        items.len() > 0,
        event_of(items[0], piece),
        events_of(items.skip(1), rest),
{
    assert((seq![piece] + rest).skip(1) =~= rest);
}

/// The bytes of pieces are those of the first ones and of the others.
pub proof fn lemma_written(first: Seq<Markup>, rest: Seq<Markup>)
    ensures
        written(first + rest) == written(first) + written(rest),
    decreases first.len(),
{
    if first.len() == 0 {
        assert(first + rest =~= rest);
        assert(written(first) + written(rest) =~= written(rest));
    } else {
        lemma_written(first.skip(1), rest);
        assert((first + rest).skip(1) =~= first.skip(1) + rest);
        assert(written(first + rest) =~= written(first) + written(rest));
    }
}

/// The bytes of one piece.
pub proof fn lemma_written_one(piece: Markup)
    ensures
        written(seq![piece]) == markup_bytes(piece),
{
    assert(seq![piece].skip(1) =~= Seq::<Markup>::empty());
    assert(written(Seq::<Markup>::empty()) =~= Seq::<u8>::empty());
    assert(written(seq![piece]) =~= markup_bytes(piece));
}

} // verus!
