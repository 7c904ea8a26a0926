//! Shared strings in their simplest form: a list of entries with one text each, or
//! none. The byte scanner and the XML parser read such a list alike.

use crate::arrow::{text_of, texts_of};
use crate::error::Failure;
use crate::plain_xml::{
    events_of, lemma_first_event, lemma_written, lemma_written_one, markup_bytes, plain,
    plain_attributes, plain_name, plain_piece, plain_text, without, written, Markup,
};
use crate::shared_strings::{
    encoded, entries_scan, entry_scan, has_byte, lemma_first_from_shifted, lemma_marker_bytes,
    lemma_marker_lengths, lemma_scan_shifted, moved, no_strings, strings_of, strings_step,
    total_bytes, EntryScan, StringsState,
};
use crate::text::{byte_from, bytes_of, first_from, lemma_first_from, occurs_at};
use crate::xml::XmlItem;
use vstd::prelude::*;
use vstd::utf8::*;

verus! {

/// The `t` element of an entry, each with what follows the name in its tag.
pub enum EntryText {
    Missing,
    /// An empty-element tag.
    Empty(Seq<u8>),
    /// A tag, and the bytes of the text.
    Given(Seq<u8>, Seq<u8>),
}

/// An entry: what stands before it, and around the `t` element in it.
pub struct SimpleEntry {
    pub space: Seq<Markup>,
    pub lead: Seq<Markup>,
    pub text: EntryText,
    pub trail: Seq<Markup>,
}

/// A list: what stands before it, what follows the name in its tag, the entries, what
/// stands behind them, and behind the list.
pub struct SimpleList {
    pub prolog: Seq<Markup>,
    pub attributes: Seq<u8>,
    pub entries: Seq<SimpleEntry>,
    pub space: Seq<Markup>,
    pub epilog: Seq<Markup>,
}

/// The pieces of a `t` element.
pub open spec fn text_markup(text: EntryText) -> Seq<Markup> {
    match text {
        EntryText::Missing => Seq::empty(),
        EntryText::Empty(attributes) => seq![Markup::Empty(bytes_of("t"), attributes)],
        EntryText::Given(attributes, bytes) => if bytes.len() == 0 {
            seq![Markup::Open(bytes_of("t"), attributes), Markup::Close(bytes_of("t"))]
        } else {
            seq![
                Markup::Open(bytes_of("t"), attributes),
                Markup::Chars(bytes),
                Markup::Close(bytes_of("t")),
            ]
        },
    }
}

/// The pieces in an entry.
pub open spec fn content_markup(entry: SimpleEntry) -> Seq<Markup> {
    entry.lead + text_markup(entry.text) + entry.trail
}

/// The pieces of an entry, and of what stands before it.
pub open spec fn entry_markup(entry: SimpleEntry) -> Seq<Markup> {
    entry.space + (seq![Markup::Open(bytes_of("si"), Seq::empty())] + content_markup(entry) + seq![
        Markup::Close(bytes_of("si")),
    ])
}

/// The pieces of entries.
pub open spec fn entries_markup(entries: Seq<SimpleEntry>) -> Seq<Markup>
    decreases entries.len(),
{
    if entries.len() == 0 {
        Seq::empty()
    } else {
        entry_markup(entries[0]) + entries_markup(entries.skip(1))
    }
}

/// The pieces behind the entries of a list.
pub open spec fn end_markup(list: SimpleList) -> Seq<Markup> {
    list.space + (seq![Markup::Close(bytes_of("sst"))] + list.epilog)
}

/// The pieces of a list.
pub open spec fn list_markup(list: SimpleList) -> Seq<Markup> {
    list.prolog + (seq![Markup::Open(bytes_of("sst"), list.attributes)] + (entries_markup(
        list.entries,
    ) + end_markup(list)))
}

/// The bytes of a list.
pub open spec fn list_document(list: SimpleList) -> Seq<u8> {
    written(list_markup(list))
}

/// The bytes of the text of an entry.
pub open spec fn entry_text(text: EntryText) -> Seq<u8> {
    match text {
        EntryText::Given(_, bytes) => bytes,
        _ => Seq::empty(),
    }
}

/// The bytes of the texts of entries.
pub open spec fn entry_bytes(entries: Seq<SimpleEntry>) -> Seq<Seq<u8>> {
    entries.map_values(|entry: SimpleEntry| entry_text(entry.text))
}

/// The texts of entries.
pub open spec fn entry_texts(entries: Seq<SimpleEntry>) -> Seq<Seq<char>> {
    texts_of(entry_bytes(entries))
}

/// Whether a piece stands beside the texts of a list, and neither starts nor ends an
/// entry, a text, rich text or the list: another tag, an empty entry, text or a
/// declaration.
pub open spec fn aside(piece: Markup) -> bool {
    &&& plain_piece(piece)
    &&& match piece {
        Markup::Declaration(content) => without(content, 60),
        Markup::Open(name, attributes) => name[0] != 116 && name != bytes_of("si") && !(name
            == bytes_of("r") && attributes.len() == 0),
        Markup::Close(name) => name != bytes_of("si") && name != bytes_of("sst"),
        Markup::Empty(name, _) => name[0] != 116,
        Markup::Chars(_) => true,
    }
}

/// Whether all pieces stand beside the texts.
pub open spec fn all_aside(pieces: Seq<Markup>) -> bool {
    forall|i: int| 0 <= i < pieces.len() ==> aside(#[trigger] pieces[i])
}

/// Whether what follows the name in the tag of a text is simple: no entities, and no
/// angle brackets.
pub open spec fn simple_attributes(attributes: Seq<u8>) -> bool {
    plain_attributes(attributes) && without(attributes, 38) && without(attributes, 62)
}

/// Whether an entry is simple: it has no entities, and no carriage returns in its text.
pub open spec fn simple_entry(entry: SimpleEntry) -> bool {
    &&& all_aside(entry.space)
    &&& all_aside(entry.lead)
    &&& all_aside(entry.trail)
    &&& match entry.text {
        EntryText::Missing => true,
        EntryText::Empty(attributes) => simple_attributes(attributes),
        EntryText::Given(attributes, bytes) => simple_attributes(attributes) && plain_text(bytes)
            && without(bytes, 13),
    }
}

/// Whether a list is a plain document of simple entries, and short enough for a table.
pub open spec fn simple_list(list: SimpleList) -> bool {
    &&& plain(list_markup(list))
    &&& all_aside(list.prolog)
    &&& plain_attributes(list.attributes)
    &&& forall|i: int| 0 <= i < list.entries.len() ==> simple_entry(#[trigger] list.entries[i])
    &&& all_aside(list.space)
    &&& all_aside(list.epilog)
    &&& total_bytes(entry_bytes(list.entries)) <= u32::MAX
}

proof fn lemma_names()
    ensures
        bytes_of("si") =~= seq![115u8, 105],
        bytes_of("t") =~= seq![116u8],
        bytes_of("r") =~= seq![114u8],
        bytes_of("sst") =~= seq![115u8, 115, 116],
        plain_name(bytes_of("si")),
        plain_name(bytes_of("t")),
        plain_name(bytes_of("r")),
        plain_name(bytes_of("sst")),
{
    reveal_strlit("si");
    reveal_strlit("t");
    reveal_strlit("r");
    reveal_strlit("sst");
    is_ascii_chars_encode_utf8("si"@);
    is_ascii_chars_encode_utf8("t"@);
    is_ascii_chars_encode_utf8("r"@);
    is_ascii_chars_encode_utf8("sst"@);
}

/// Reading on after pieces that stand beside the texts.
proof fn lemma_aside_is_passed(
    items: Seq<XmlItem>,
    pieces: Seq<Markup>,
    rest: Seq<Markup>,
    state: StringsState,
) -> (later: Seq<XmlItem>)
    requires
        events_of(items, pieces + rest),
        all_aside(pieces),
        !state.in_t,
    ensures
        events_of(later, rest),
        strings_of(items, state) == strings_of(later, state),
    decreases pieces.len(),
{
    if pieces.len() == 0 {
        assert(pieces + rest =~= rest);
        items
    } else {
        lemma_names();
        let others = pieces.skip(1);
        assert(pieces + rest =~= seq![pieces[0]] + (others + rest));
        lemma_first_event(items, pieces[0], others + rest);
        assert(aside(pieces[0]));
        assert(strings_step(state, items[0]) == Ok::<(StringsState, bool), Failure>(
            (state, false),
        ));
        assert forall|i: int| 0 <= i < others.len() implies aside(#[trigger] others[i]) by {
            assert(others[i] == pieces[i + 1]);
        }
        lemma_aside_is_passed(items.skip(1), others, rest, state)
    }
}

/// Reading the `t` element of an entry.
proof fn lemma_text_is_parsed(
    items: Seq<XmlItem>,
    text: EntryText,
    rest: Seq<Markup>,
    state: StringsState,
) -> (later: Seq<XmlItem>)
    requires
        events_of(items, text_markup(text) + rest),
        text matches EntryText::Given(_, bytes) ==> without(bytes, 13),
        state.in_si,
        !state.in_t,
        state.current.len() == 0,
    ensures
        events_of(later, rest),
        strings_of(items, state) == strings_of(
            later,
            StringsState { current: text_of(entry_text(text)), ..state },
        ),
{
    lemma_names();
    lemma_text_of(Seq::empty());
    let read = StringsState { current: text_of(entry_text(text)), ..state };
    match text {
        EntryText::Missing => {
            assert(text_markup(text) + rest =~= rest);
            assert(read.current =~= state.current);
            assert(read == state);
            items
        },
        EntryText::Empty(attributes) => {
            lemma_first_event(items, Markup::Empty(bytes_of("t"), attributes), rest);
            assert(read.current =~= state.current);
            assert(read == state);
            assert(strings_step(state, items[0]) == Ok::<(StringsState, bool), Failure>(
                (state, false),
            ));
            items.skip(1)
        },
        EntryText::Given(attributes, bytes) => {
            let start = Markup::Open(bytes_of("t"), attributes);
            let end = Markup::Close(bytes_of("t"));
            let chars = if bytes.len() == 0 {
                Seq::empty()
            } else {
                seq![Markup::Chars(bytes)]
            };
            let at_end = seq![end] + rest;
            assert(text_markup(text) + rest =~= seq![start] + (chars + at_end));
            lemma_first_event(items, start, chars + at_end);
            let in_t = StringsState { in_t: true, ..state };
            assert(strings_step(state, items[0]) == Ok::<(StringsState, bool), Failure>(
                (in_t, false),
            ));
            assert(strings_of(items, state) == strings_of(items.skip(1), in_t));
            let inner = StringsState { in_t: true, ..read };
            let last = if bytes.len() == 0 {
                assert(chars + at_end =~= at_end);
                assert(bytes =~= Seq::<u8>::empty());
                assert(read.current =~= state.current);
                assert(inner == in_t);
                items.skip(1)
            } else {
                let at_text = items.skip(1);
                lemma_first_event(at_text, Markup::Chars(bytes), at_end);
                assert(in_t.current + text_of(bytes) =~= text_of(bytes));
                assert(strings_step(in_t, at_text[0]) == Ok::<(StringsState, bool), Failure>(
                    (inner, false),
                ));
                assert(strings_of(at_text, in_t) == strings_of(at_text.skip(1), inner));
                at_text.skip(1)
            };
            assert(strings_of(items, state) == strings_of(last, inner));
            lemma_first_event(last, end, rest);
            assert(strings_step(inner, last[0]) == Ok::<(StringsState, bool), Failure>(
                (read, false),
            ));
            last.skip(1)
        },
    }
}

/// The text of an entry has at most as many bytes as the entry.
proof fn lemma_text_of(entry: Seq<u8>)
    ensures
        encode_utf8(text_of(entry)).len() <= entry.len(),
        entry.len() == 0 ==> text_of(entry).len() == 0,
{
    let none = Seq::<char>::empty();
    assert(encode_utf8(none) =~= Seq::<u8>::empty());
    encode_utf8_decode_utf8(none);
    if valid_utf8(entry) {
        decode_utf8_encode_utf8(entry);
    }
    if entry.len() == 0 {
        assert(entry =~= Seq::<u8>::empty());
    }
}

proof fn lemma_entries_are_parsed(
    items: Seq<XmlItem>,
    entries: Seq<SimpleEntry>,
    list: SimpleList,
    texts: Seq<Seq<char>>,
)
    requires
        events_of(items, entries_markup(entries) + end_markup(list)),
        forall|i: int| 0 <= i < entries.len() ==> simple_entry(#[trigger] entries[i]),
        all_aside(list.space),
        total_bytes(encoded(texts)) + total_bytes(entry_bytes(entries)) <= u32::MAX,
    ensures
        strings_of(items, StringsState { texts, ..no_strings() }) == Ok::<
            Seq<Seq<char>>,
            Failure,
        >(texts + entry_texts(entries)),
    decreases entries.len(),
{
    lemma_names();
    let state = StringsState { texts, ..no_strings() };
    let list_end = end_markup(list);
    if entries.len() == 0 {
        let close = Markup::Close(bytes_of("sst"));
        assert(entries_markup(entries) + list_end =~= list.space + (seq![close] + list.epilog));
        let later = lemma_aside_is_passed(items, list.space, seq![close] + list.epilog, state);
        lemma_first_event(later, close, list.epilog);
        assert(texts + entry_texts(entries) =~= texts);
    } else {
        let entry = entries[0];
        assert(simple_entry(entry));
        let others = entries.skip(1);
        let start = Markup::Open(bytes_of("si"), Seq::empty());
        let end = Markup::Close(bytes_of("si"));
        let rest = entries_markup(others) + list_end;
        let at_end = seq![end] + rest;
        let at_trail = entry.trail + at_end;
        let at_text = text_markup(entry.text) + at_trail;
        let at_lead = entry.lead + at_text;
        let at_start = seq![start] + at_lead;
        assert(entries_markup(entries) + list_end =~= entry.space + at_start);

        let first = lemma_aside_is_passed(items, entry.space, at_start, state);
        lemma_first_event(first, start, at_lead);
        let in_si = StringsState { in_si: true, ..state };
        assert(strings_step(state, first[0]) == Ok::<(StringsState, bool), Failure>(
            (in_si, false),
        ));
        let text = lemma_aside_is_passed(first.skip(1), entry.lead, at_text, in_si);
        let trail = lemma_text_is_parsed(text, entry.text, at_trail, in_si);
        let bytes = entry_text(entry.text);
        let read = StringsState { current: text_of(bytes), ..in_si };
        let last = lemma_aside_is_passed(trail, entry.trail, at_end, read);
        lemma_first_event(last, end, rest);

        lemma_text_of(bytes);
        lemma_total_of_first(entry_bytes(entries));
        assert(entry_bytes(entries).skip(1) =~= entry_bytes(others));
        lemma_total_not_negative(entry_bytes(others));
        let more = texts.push(text_of(bytes));
        let past = StringsState { texts: more, ..no_strings() };
        assert(strings_step(read, last[0]) == Ok::<(StringsState, bool), Failure>((past, false)));
        assert(encoded(more) =~= encoded(texts).push(encode_utf8(text_of(bytes))));
        assert(encoded(more).drop_last() =~= encoded(texts));
        assert forall|i: int| 0 <= i < others.len() implies simple_entry(#[trigger] others[i]) by {
            assert(others[i] == entries[i + 1]);
        }
        lemma_entries_are_parsed(last.skip(1), others, list, more);
        assert(more + entry_texts(others) =~= texts + entry_texts(entries));
    }
}

proof fn lemma_total_of_first(entries: Seq<Seq<u8>>)
    requires
        entries.len() > 0,
    ensures
        total_bytes(entries) == entries[0].len() + total_bytes(entries.skip(1)),
    decreases entries.len(),
{
    if entries.len() == 1 {
        assert(total_bytes(entries.drop_last()) == 0);
        assert(total_bytes(entries.skip(1)) == 0);
    } else {
        lemma_total_of_first(entries.drop_last());
        assert(entries.skip(1).drop_last() =~= entries.drop_last().skip(1));
    }
}

proof fn lemma_total_not_negative(entries: Seq<Seq<u8>>)
    ensures
        total_bytes(entries) >= 0,
    decreases entries.len(),
{
    if entries.len() > 0 {
        lemma_total_not_negative(entries.drop_last());
    }
}

/// The XML parser reads a simple list from its events.
pub proof fn law_simple_list_is_parsed(items: Seq<XmlItem>, list: SimpleList)
    requires
        simple_list(list),
        events_of(items, list_markup(list)),
    ensures
        strings_of(items, no_strings()) == Ok::<Seq<Seq<char>>, Failure>(
            entry_texts(list.entries),
        ),
{
    lemma_names();
    let start = Markup::Open(bytes_of("sst"), list.attributes);
    let rest = entries_markup(list.entries) + end_markup(list);
    let at_list = lemma_aside_is_passed(items, list.prolog, seq![start] + rest, no_strings());
    lemma_first_event(at_list, start, rest);
    assert(strings_of(at_list, no_strings()) == strings_of(at_list.skip(1), no_strings()));
    let none = Seq::<Seq<char>>::empty();
    assert(encoded(none) =~= Seq::<Seq<u8>>::empty());
    lemma_entries_are_parsed(at_list.skip(1), list.entries, list, none);
    assert(none + entry_texts(list.entries) =~= entry_texts(list.entries));
}

/// Whether a tag opens in a piece at its start only.
spec fn opens_first(piece: Markup) -> bool {
    forall|j: int|
        0 < j < markup_bytes(piece).len() ==> #[trigger] markup_bytes(piece)[j] != 60
}

/// Whether bytes that begin with a piece do not begin with `needle`.
spec fn misses(piece: Markup, needle: Seq<u8>) -> bool {
    forall|rest: Seq<u8>| !#[trigger] occurs_at(markup_bytes(piece) + rest, needle, 0)
}

/// Whether `needle` does not start in any of the pieces.
spec fn all_miss(pieces: Seq<Markup>, needle: Seq<u8>) -> bool {
    forall|i: int|
        0 <= i < pieces.len() ==> opens_first(#[trigger] pieces[i]) && misses(pieces[i], needle)
}

proof fn lemma_opens_first(piece: Markup)
    requires
        plain_piece(piece),
        piece matches Markup::Declaration(content) ==> without(content, 60),
    ensures
        opens_first(piece),
{
    let bytes = markup_bytes(piece);
    assert forall|j: int| 0 < j < bytes.len() implies #[trigger] bytes[j] != 60 by {
        match piece {
            Markup::Declaration(content) => {
                if 2 <= j < 2 + content.len() {
                    assert(bytes[j] == content[j - 2]);
                }
            },
            Markup::Open(name, attributes) => {
                lemma_tag_byte(name, attributes, seq![62u8], j);
            },
            Markup::Close(name) => {
                if 2 <= j < 2 + name.len() {
                    assert(bytes[j] == name[j - 2]);
                }
            },
            Markup::Empty(name, attributes) => {
                lemma_tag_byte(name, attributes, seq![47u8, 62], j);
            },
            Markup::Chars(text) => {
                assert(bytes[j] == text[j]);
            },
        }
    }
}

proof fn lemma_tag_byte(name: Seq<u8>, attributes: Seq<u8>, end: Seq<u8>, j: int)
    requires
        plain_name(name),
        without(attributes, 60),
        without(end, 60),
        0 < j < (seq![60u8] + name + attributes + end).len(),
    ensures
        (seq![60u8] + name + attributes + end)[j] != 60,
{
    let bytes = seq![60u8] + name + attributes + end;
    let n = 1 + name.len() as int;
    if j < n {
        assert(bytes[j] == name[j - 1]);
    } else if j < n + attributes.len() {
        assert(bytes[j] == attributes[j - n]);
    } else {
        assert(bytes[j] == end[j - n - attributes.len()]);
    }
}

/// The first bytes of an occurrence.
pub(crate) proof fn lemma_occurrence(data: Seq<u8>, needle: Seq<u8>, at: int)
    requires
        occurs_at(data, needle, at),
    ensures
        at + needle.len() <= data.len(),
        forall|k: int| 0 <= k < needle.len() ==> data[at + k] == #[trigger] needle[k],
{
    assert forall|k: int| 0 <= k < needle.len() implies data[at + k] == #[trigger] needle[k] by {
        assert(data.subrange(at, at + needle.len())[k] == needle[k]);
    }
}

/// A piece misses what does not begin as it does: the second byte of a piece that is no
/// text tells what it is.
proof fn lemma_misses_mark(piece: Markup, needle: Seq<u8>)
    requires
        plain_piece(piece),
        needle.len() >= 2,
        needle[0] == 60,
        match piece {
            Markup::Declaration(_) => needle[1] != 63,
            Markup::Open(name, _) => needle[1] != name[0],
            Markup::Close(_) => needle[1] != 47,
            Markup::Empty(name, _) => needle[1] != name[0],
            Markup::Chars(_) => true,
        },
    ensures
        misses(piece, needle),
{
    assert forall|rest: Seq<u8>| !#[trigger] occurs_at(markup_bytes(piece) + rest, needle, 0) by {
        let data = markup_bytes(piece) + rest;
        if occurs_at(data, needle, 0) {
            lemma_occurrence(data, needle, 0);
            assert(data[0] == needle[0] && data[1] == needle[1]);
            match piece {
                Markup::Chars(text) => {
                    assert(data[0] == text[0]);
                },
                _ => {},
            }
        }
    }
}

/// Only the start tag of an entry begins as one.
proof fn lemma_misses_entry(piece: Markup)
    requires
        plain_piece(piece),
        !(piece matches Markup::Open(name, attributes) && name == bytes_of("si")),
    ensures
        misses(piece, bytes_of("<si>")),
{
    lemma_names();
    lemma_marker_bytes();
    let needle = bytes_of("<si>");
    assert(needle =~= seq![60u8] + bytes_of("si") + seq![62u8]);
    match piece {
        Markup::Open(name, attributes) => {
            lemma_misses_tag(name, attributes, seq![62u8], needle, bytes_of("si"));
        },
        Markup::Empty(name, attributes) => {
            lemma_misses_tag(name, attributes, seq![47u8, 62], needle, bytes_of("si"));
        },
        _ => {
            lemma_misses_mark(piece, needle);
        },
    }
}

/// Only the start tag of rich text begins as one.
proof fn lemma_misses_rich(piece: Markup)
    requires
        plain_piece(piece),
        !(piece matches Markup::Open(name, attributes) && name == bytes_of("r")
            && attributes.len() == 0),
    ensures
        misses(piece, bytes_of("<r>")),
{
    lemma_names();
    lemma_marker_bytes();
    let needle = bytes_of("<r>");
    assert(needle =~= seq![60u8] + bytes_of("r") + seq![62u8]);
    match piece {
        Markup::Open(name, attributes) => {
            lemma_misses_tag(name, attributes, seq![62u8], needle, bytes_of("r"));
        },
        Markup::Empty(name, attributes) => {
            lemma_misses_tag(name, attributes, seq![47u8, 62], needle, bytes_of("r"));
        },
        _ => {
            lemma_misses_mark(piece, needle);
        },
    }
}

/// A tag does not begin as the bare start tag of another name, nor as that of its own
/// name where something follows that.
proof fn lemma_misses_tag(
    name: Seq<u8>,
    attributes: Seq<u8>,
    end: Seq<u8>,
    needle: Seq<u8>,
    other: Seq<u8>,
)
    requires
        plain_name(name),
        plain_attributes(attributes),
        end.len() > 0,
        end[0] == 62 || end[0] == 47,
        plain_name(other),
        needle == seq![60u8] + other + seq![62u8],
        name != other || attributes.len() > 0 || end[0] != 62,
    ensures
        forall|rest: Seq<u8>|
            !#[trigger] occurs_at(seq![60u8] + name + attributes + end + rest, needle, 0),
{
    assert forall|rest: Seq<u8>|
        !#[trigger] occurs_at(seq![60u8] + name + attributes + end + rest, needle, 0) by {
        let data = seq![60u8] + name + attributes + end + rest;
        if occurs_at(data, needle, 0) {
            lemma_occurrence(data, needle, 0);
            let n = name.len() as int;
            let m = other.len() as int;
            assert forall|k: int| 0 <= k < n implies data[k + 1] == #[trigger] name[k] by {}
            assert forall|k: int| 0 <= k < m implies needle[k + 1] == #[trigger] other[k] by {}
            let follows = if attributes.len() > 0 {
                attributes[0]
            } else {
                end[0]
            };
            assert(data[n + 1] == follows);
            assert(needle[m + 1] == 62);
            if n < m {
                assert(needle[n + 1] == other[n]);
                assert(data[0 + (n + 1)] == needle[n + 1]);
            } else if m < n {
                assert(data[m + 1] == name[m]);
                assert(data[0 + (m + 1)] == needle[m + 1]);
            } else {
                assert forall|k: int| 0 <= k < n implies #[trigger] name[k] == other[k] by {
                    assert(data[0 + (k + 1)] == needle[k + 1]);
                }
                assert(name =~= other);
                assert(data[0 + (m + 1)] == needle[m + 1]);
            }
        }
    }
}

/// Only the end tag of an entry begins as one.
proof fn lemma_misses_entry_end(piece: Markup)
    requires
        plain_piece(piece),
        !(piece matches Markup::Close(name) && name == bytes_of("si")),
    ensures
        misses(piece, bytes_of("</si>")),
{
    lemma_names();
    lemma_marker_bytes();
    let needle = bytes_of("</si>");
    match piece {
        Markup::Close(name) => {
            assert forall|rest: Seq<u8>|
                !#[trigger] occurs_at(markup_bytes(piece) + rest, needle, 0) by {
                let data = markup_bytes(piece) + rest;
                if occurs_at(data, needle, 0) {
                    lemma_occurrence(data, needle, 0);
                    let n = name.len() as int;
                    assert forall|k: int| 0 <= k < n implies data[k + 2] == #[trigger] name[k] by {}
                    assert(data[n + 2] == 62);
                    assert(data[2] == needle[2] && data[3] == needle[3] && data[4] == needle[4]);
                    if n == 1 {
                        assert(data[3] == 62);
                    } else if n == 2 {
                        assert(name[0] == data[2] && name[1] == data[3]);
                        assert(name =~= bytes_of("si"));
                    } else {
                        assert(name[2] == data[4]);
                    }
                }
            }
        },
        _ => {
            lemma_misses_mark(piece, needle);
        },
    }
}

/// What does not start in any of some pieces is not found in their bytes.
proof fn lemma_run_passed(pieces: Seq<Markup>, rest: Seq<u8>, needle: Seq<u8>)
    requires
        all_miss(pieces, needle),
        needle.len() > 0,
        needle[0] == 60,
    ensures
        forall|j: int|
            0 <= j < written(pieces).len() ==> !#[trigger] occurs_at(
                written(pieces) + rest,
                needle,
                j,
            ),
    decreases pieces.len(),
{
    if pieces.len() > 0 {
        let bytes = markup_bytes(pieces[0]);
        let others = pieces.skip(1);
        let tail = written(others) + rest;
        let data = written(pieces) + rest;
        assert(data =~= bytes + tail);
        assert(opens_first(pieces[0]) && misses(pieces[0], needle));
        assert forall|i: int| 0 <= i < others.len() implies opens_first(#[trigger] others[i])
            && misses(others[i], needle) by {
            assert(others[i] == pieces[i + 1]);
        }
        lemma_run_passed(others, rest, needle);
        assert forall|j: int| 0 <= j < written(pieces).len() implies !#[trigger] occurs_at(
            data,
            needle,
            j,
        ) by {
            if occurs_at(data, needle, j) {
                lemma_occurrence(data, needle, j);
                assert(data[j + 0] == needle[0]);
                if j >= bytes.len() {
                    let k = j - bytes.len();
                    assert(tail.subrange(k, k + needle.len()) =~= data.subrange(
                        j,
                        j + needle.len(),
                    ));
                    assert(occurs_at(tail, needle, k));
                } else if j == 0 {
                    assert(occurs_at(bytes + tail, needle, 0));
                } else {
                    assert(data[j] == bytes[j]);
                }
            }
        }
    }
}

/// What does not start in any of some pieces does not stand in their bytes.
proof fn lemma_run_lacks(pieces: Seq<Markup>, needle: Seq<u8>)
    requires
        all_miss(pieces, needle),
        needle.len() > 0,
        needle[0] == 60,
    ensures
        first_from(written(pieces), needle, 0) is None,
{
    let data = written(pieces);
    lemma_run_passed(pieces, Seq::empty(), needle);
    assert(data + Seq::<u8>::empty() =~= data);
    lemma_first_from(data, needle, 0);
}

pub(crate) proof fn lemma_found(data: Seq<u8>, needle: Seq<u8>, from: int, at: int)
    requires
        0 <= from <= at,
        occurs_at(data, needle, at),
        forall|j: int| from <= j < at ==> !#[trigger] occurs_at(data, needle, j),
    ensures
        first_from(data, needle, from) == Some(at),
    decreases at - from,
{
    if from < at {
        lemma_found(data, needle, from + 1, at);
    }
}

/// After pieces in which it does not start, `needle` is found where it stands.
proof fn lemma_found_behind(pieces: Seq<Markup>, needle: Seq<u8>, tail: Seq<u8>)
    requires
        all_miss(pieces, needle),
        needle.len() > 0,
        needle[0] == 60,
    ensures
        first_from(written(pieces) + (needle + tail), needle, 0) == Some(
            written(pieces).len() as int,
        ),
{
    let data = written(pieces) + (needle + tail);
    let at = written(pieces).len() as int;
    assert(occurs_at(data, needle, at)) by {
        assert(data.subrange(at, at + needle.len()) =~= needle);
    }
    lemma_run_passed(pieces, needle + tail, needle);
    lemma_found(data, needle, 0, at);
}

proof fn lemma_byte_from(bytes: Seq<u8>, byte: u8, from: int, at: int)
    requires
        0 <= from <= at < bytes.len(),
        bytes[at] == byte,
        forall|i: int| from <= i < at ==> #[trigger] bytes[i] != byte,
    ensures
        byte_from(bytes, byte, from) == at,
    decreases at - from,
{
    if from < at {
        lemma_byte_from(bytes, byte, from + 1, at);
    }
}

/// Pieces beside the texts hold none of the marks that the scan looks for.
proof fn lemma_aside_misses(pieces: Seq<Markup>)
    requires
        all_aside(pieces),
    ensures
        all_miss(pieces, bytes_of("<si>")),
        all_miss(pieces, bytes_of("</si>")),
        all_miss(pieces, bytes_of("<t")),
        all_miss(pieces, bytes_of("<r>")),
        all_miss(pieces, bytes_of("<![CDATA[")),
{
    lemma_names();
    lemma_marker_bytes();
    assert forall|i: int| 0 <= i < pieces.len() implies opens_first(#[trigger] pieces[i])
        && misses(pieces[i], bytes_of("<si>")) && misses(pieces[i], bytes_of("</si>")) && misses(
        pieces[i],
        bytes_of("<t"),
    ) && misses(pieces[i], bytes_of("<r>")) && misses(pieces[i], bytes_of("<![CDATA[")) by {
        let piece = pieces[i];
        assert(aside(piece));
        lemma_opens_first(piece);
        lemma_misses_entry(piece);
        lemma_misses_entry_end(piece);
        lemma_misses_mark(piece, bytes_of("<t"));
        lemma_misses_rich(piece);
        lemma_misses_mark(piece, bytes_of("<![CDATA["));
    }
}

/// A `t` element holds none of the marks of an entry, of rich text and of CDATA.
proof fn lemma_text_misses(text: EntryText)
    requires
        match text {
            EntryText::Missing => true,
            EntryText::Empty(attributes) => simple_attributes(attributes),
            EntryText::Given(attributes, bytes) => simple_attributes(attributes) && plain_text(
                bytes,
            ),
        },
    ensures
        all_miss(text_markup(text), bytes_of("</si>")),
        all_miss(text_markup(text), bytes_of("<r>")),
        all_miss(text_markup(text), bytes_of("<![CDATA[")),
{
    lemma_names();
    lemma_marker_bytes();
    let pieces = text_markup(text);
    assert forall|i: int| 0 <= i < pieces.len() implies opens_first(#[trigger] pieces[i])
        && misses(pieces[i], bytes_of("</si>")) && misses(pieces[i], bytes_of("<r>")) && misses(
        pieces[i],
        bytes_of("<![CDATA["),
    ) by {
        let piece = pieces[i];
        assert(plain_piece(piece));
        lemma_opens_first(piece);
        lemma_misses_entry_end(piece);
        lemma_misses_rich(piece);
        lemma_misses_mark(piece, bytes_of("<![CDATA["));
    }
}

proof fn lemma_all_miss(first: Seq<Markup>, rest: Seq<Markup>, needle: Seq<u8>)
    requires
        all_miss(first, needle),
        all_miss(rest, needle),
    ensures
        all_miss(first + rest, needle),
{
    let all = first + rest;
    assert forall|i: int| 0 <= i < all.len() implies opens_first(#[trigger] all[i]) && misses(
        all[i],
        needle,
    ) by {
        if i < first.len() {
            assert(all[i] == first[i]);
        } else {
            assert(all[i] == rest[i - first.len()]);
        }
    }
}

proof fn lemma_content_misses(entry: SimpleEntry)
    requires
        simple_entry(entry),
    ensures
        all_miss(content_markup(entry), bytes_of("</si>")),
        all_miss(content_markup(entry), bytes_of("<r>")),
        all_miss(content_markup(entry), bytes_of("<![CDATA[")),
{
    lemma_aside_misses(entry.lead);
    lemma_aside_misses(entry.trail);
    lemma_text_misses(entry.text);
    let text = text_markup(entry.text);
    lemma_all_miss(entry.lead, text, bytes_of("</si>"));
    lemma_all_miss(entry.lead, text, bytes_of("<r>"));
    lemma_all_miss(entry.lead, text, bytes_of("<![CDATA["));
    lemma_all_miss(entry.lead + text, entry.trail, bytes_of("</si>"));
    lemma_all_miss(entry.lead + text, entry.trail, bytes_of("<r>"));
    lemma_all_miss(entry.lead + text, entry.trail, bytes_of("<![CDATA["));
}

/// The bytes in an entry.
proof fn lemma_content_bytes(entry: SimpleEntry)
    ensures
        written(content_markup(entry)) == written(entry.lead) + (written(text_markup(entry.text))
            + written(entry.trail)),
        match entry.text {
            EntryText::Missing => written(text_markup(entry.text)) == Seq::<u8>::empty(),
            EntryText::Empty(attributes) => written(text_markup(entry.text)) == bytes_of("<t")
                + attributes + seq![47u8, 62],
            EntryText::Given(attributes, bytes) => written(text_markup(entry.text)) == bytes_of(
                "<t",
            ) + attributes + seq![62u8] + bytes + bytes_of("</t>"),
        },
{
    lemma_names();
    lemma_marker_bytes();
    let text = text_markup(entry.text);
    lemma_written(entry.lead, text);
    lemma_written(entry.lead + text, entry.trail);
    assert(written(content_markup(entry)) =~= written(entry.lead) + (written(text) + written(
        entry.trail,
    )));
    match entry.text {
        EntryText::Missing => {},
        EntryText::Empty(attributes) => {
            lemma_written_one(Markup::Empty(bytes_of("t"), attributes));
            assert(written(text) =~= bytes_of("<t") + attributes + seq![47u8, 62]);
        },
        EntryText::Given(attributes, bytes) => {
            let start = Markup::Open(bytes_of("t"), attributes);
            let end = Markup::Close(bytes_of("t"));
            lemma_written_one(start);
            lemma_written_one(Markup::Chars(bytes));
            lemma_written_one(end);
            if bytes.len() == 0 {
                assert(text =~= seq![start] + seq![end]);
                lemma_written(seq![start], seq![end]);
            } else {
                let chars = seq![Markup::Chars(bytes)];
                assert(text =~= seq![start] + chars + seq![end]);
                lemma_written(seq![start], chars);
                lemma_written(seq![start] + chars, seq![end]);
            }
            assert(markup_bytes(start) =~= bytes_of("<t") + attributes + seq![62u8]);
            assert(markup_bytes(end) =~= bytes_of("</t>"));
            assert(written(text) =~= bytes_of("<t") + attributes + seq![62u8] + bytes + bytes_of(
                "</t>",
            ));
        },
    }
}

/// The scan of the content of an entry: behind `lead`, where no text starts, the tag of
/// an empty text, and then `trail`, where none starts either.
proof fn lemma_empty_text_is_scanned(lead: Seq<u8>, attributes: Seq<u8>, trail: Seq<u8>)
    requires
        ({
            let content = lead + (bytes_of("<t") + attributes + seq![47u8, 62] + trail);
            &&& first_from(content, bytes_of("<r>"), 0) is None
            &&& first_from(content, bytes_of("<![CDATA["), 0) is None
            &&& first_from(content, bytes_of("<t"), 0) == Some(lead.len() as int)
        }),
        simple_attributes(attributes),
        first_from(trail, bytes_of("<t"), 0) is None,
    ensures
        entry_scan(lead + (bytes_of("<t") + attributes + seq![47u8, 62] + trail))
            == EntryScan::Text(Seq::empty()),
{
    lemma_marker_bytes();
    let content = lead + (bytes_of("<t") + attributes + seq![47u8, 62] + trail);
    let at = lead.len() as int;
    let close = at + 2 + attributes.len() + 1;
    assert forall|i: int| at + 2 <= i < close implies #[trigger] content[i] != 62 && content[i]
        != 38 by {
        if i < close - 1 {
            assert(content[i] == attributes[i - at - 2]);
        }
    }
    assert(content[close] == 62 && content[close - 1] == 47);
    lemma_byte_from(content, 62, at + 2, close);
    assert(!has_byte(content, 38, at + 2, close));
    assert(content.skip(close + 1) =~= trail);
    lemma_first_from_shifted(content, bytes_of("<t"), close + 1, 0);
    assert(!has_byte(content, 38, close + 1, close + 1));
    assert(content.subrange(close + 1, close + 1) =~= Seq::<u8>::empty());
}

/// The same for a text that is given.
proof fn lemma_given_text_is_scanned(
    lead: Seq<u8>,
    attributes: Seq<u8>,
    text: Seq<u8>,
    trail: Seq<u8>,
)
    requires
        ({
            let content = lead + (bytes_of("<t") + attributes + seq![62u8] + text + bytes_of("</t>")
                + trail);
            &&& first_from(content, bytes_of("<r>"), 0) is None
            &&& first_from(content, bytes_of("<![CDATA["), 0) is None
            &&& first_from(content, bytes_of("<t"), 0) == Some(lead.len() as int)
        }),
        simple_attributes(attributes),
        plain_text(text),
        first_from(trail, bytes_of("<t"), 0) is None,
    ensures
        entry_scan(
            lead + (bytes_of("<t") + attributes + seq![62u8] + text + bytes_of("</t>") + trail),
        ) == EntryScan::Text(text),
{
    lemma_marker_bytes();
    let content = lead + (bytes_of("<t") + attributes + seq![62u8] + text + bytes_of("</t>")
        + trail);
    let at = lead.len() as int;
    let close = at + 2 + attributes.len();
    let end = close + 1 + text.len();
    assert forall|i: int| at + 2 <= i < close implies #[trigger] content[i] != 62 && content[i]
        != 38 by {
        assert(content[i] == attributes[i - at - 2]);
    }
    assert forall|i: int| close + 1 <= i < end implies #[trigger] content[i] != 60 && content[i]
        != 38 by {
        assert(content[i] == text[i - close - 1]);
    }
    assert(content[close] == 62);
    if attributes.len() > 0 {
        assert(content[close - 1] == attributes.last());
    }
    lemma_byte_from(content, 62, at + 2, close);
    assert(!has_byte(content, 38, at + 2, close));
    assert(!has_byte(content, 38, close + 1, end));
    assert(occurs_at(content, bytes_of("</t>"), end)) by {
        assert(content.subrange(end, end + 4) =~= bytes_of("</t>"));
    }
    assert forall|j: int| close + 1 <= j < end implies !#[trigger] occurs_at(
        content,
        bytes_of("</t>"),
        j,
    ) by {
        if occurs_at(content, bytes_of("</t>"), j) {
            lemma_occurrence(content, bytes_of("</t>"), j);
            assert(content[j + 0] == bytes_of("</t>")[0]);
        }
    }
    lemma_found(content, bytes_of("</t>"), close + 1, end);
    assert(content.skip(end + 4) =~= trail);
    lemma_first_from_shifted(content, bytes_of("<t"), end + 4, 0);
    assert(content.subrange(close + 1, end) =~= text);
}

/// A simple entry is read by the scan as its text, empty where it has none.
pub proof fn law_simple_entry_is_scanned(entry: SimpleEntry)
    requires
        simple_entry(entry),
    ensures
        entry_scan(written(content_markup(entry))) == EntryScan::Text(entry_text(entry.text)),
{
    lemma_marker_bytes();
    lemma_content_misses(entry);
    lemma_content_bytes(entry);
    lemma_aside_misses(entry.lead);
    lemma_aside_misses(entry.trail);
    let content = content_markup(entry);
    let lead = written(entry.lead);
    let trail = written(entry.trail);
    lemma_run_lacks(content, bytes_of("<r>"));
    lemma_run_lacks(content, bytes_of("<![CDATA["));
    lemma_run_lacks(entry.trail, bytes_of("<t"));
    match entry.text {
        EntryText::Missing => {
            assert(content =~= entry.lead + entry.trail);
            lemma_all_miss(entry.lead, entry.trail, bytes_of("<t"));
            lemma_run_lacks(content, bytes_of("<t"));
        },
        EntryText::Empty(attributes) => {
            let tail = attributes + seq![47u8, 62] + trail;
            lemma_found_behind(entry.lead, bytes_of("<t"), tail);
            assert(bytes_of("<t") + tail =~= bytes_of("<t") + attributes + seq![47u8, 62] + trail);
            lemma_empty_text_is_scanned(lead, attributes, trail);
        },
        EntryText::Given(attributes, bytes) => {
            let tail = attributes + seq![62u8] + bytes + bytes_of("</t>") + trail;
            lemma_found_behind(entry.lead, bytes_of("<t"), tail);
            assert(bytes_of("<t") + tail =~= bytes_of("<t") + attributes + seq![62u8] + bytes
                + bytes_of("</t>") + trail);
            lemma_given_text_is_scanned(lead, attributes, bytes, trail);
        },
    }
}

/// Pieces in which no entry starts are passed over by the scan.
proof fn lemma_scan_passes(pieces: Seq<Markup>, rest: Seq<u8>, found: Seq<Seq<u8>>)
    requires
        all_miss(pieces, bytes_of("<si>")),
    ensures
        entries_scan(written(pieces) + rest, 0, true, found) == moved(
            entries_scan(rest, 0, true, found),
            written(pieces).len() as int,
        ),
{
    lemma_marker_bytes();
    lemma_marker_lengths();
    let data = written(pieces) + rest;
    let k = written(pieces).len() as int;
    lemma_run_passed(pieces, rest, bytes_of("<si>"));
    lemma_first_from(data, bytes_of("<si>"), 0);
    lemma_first_from(data, bytes_of("<si>"), k);
    assert(first_from(data, bytes_of("<si>"), 0) == first_from(data, bytes_of("<si>"), k));
    assert(data.skip(k) =~= rest);
    lemma_scan_shifted(data, k, 0, true, found);
    if rest.len() == 0 {
        assert(first_from(data, bytes_of("<si>"), k) is None);
    }
}

proof fn lemma_entry_is_scanned(entry: SimpleEntry, tail: Seq<u8>, found: Seq<Seq<u8>>)
    requires
        simple_entry(entry),
        total_bytes(found) + entry_text(entry.text).len() <= u32::MAX,
    ensures
        match entries_scan(tail, 0, true, found.push(entry_text(entry.text))) {
            Ok((entries, _)) => entries_scan(
                written(entry_markup(entry)) + tail,
                0,
                true,
                found,
            ) matches Ok((all, _)) && all == entries,
            Err(_) => true,
        },
{
    lemma_names();
    lemma_marker_bytes();
    lemma_marker_lengths();
    let start = Markup::Open(bytes_of("si"), Seq::empty());
    let end = Markup::Close(bytes_of("si"));
    let content = content_markup(entry);
    let inner = written(content);
    lemma_written_one(start);
    lemma_written_one(end);
    lemma_written(seq![start], content);
    lemma_written(seq![start] + content, seq![end]);
    lemma_written(entry.space, seq![start] + content + seq![end]);
    assert(markup_bytes(start) =~= bytes_of("<si>"));
    assert(markup_bytes(end) =~= bytes_of("</si>"));
    let data = bytes_of("<si>") + (inner + (bytes_of("</si>") + tail));
    assert(written(entry_markup(entry)) + tail =~= written(entry.space) + data);
    lemma_entry_data(entry, inner, tail, data, found);
    lemma_aside_misses(entry.space);
    lemma_scan_passes(entry.space, data, found);
}

proof fn lemma_entry_data(
    entry: SimpleEntry,
    inner: Seq<u8>,
    tail: Seq<u8>,
    data: Seq<u8>,
    found: Seq<Seq<u8>>,
)
    requires
        simple_entry(entry),
        inner == written(content_markup(entry)),
        data == bytes_of("<si>") + (inner + (bytes_of("</si>") + tail)),
        total_bytes(found) + entry_text(entry.text).len() <= u32::MAX,
    ensures
        entries_scan(data, 0, true, found) == moved(
            entries_scan(tail, 0, true, found.push(entry_text(entry.text))),
            inner.len() as int + 9,
        ),
{
    lemma_marker_lengths();
    assert(bytes_of("</si>")[0] == 60) by {
        lemma_marker_bytes();
    }
    let text = entry_text(entry.text);
    let at = 4 + inner.len() as int;
    assert(occurs_at(data, bytes_of("<si>"), 0)) by {
        assert(data.subrange(0, 4) =~= bytes_of("<si>"));
    }
    assert(first_from(data, bytes_of("<si>"), 0) == Some(0int));
    lemma_content_misses(entry);
    lemma_found_behind(content_markup(entry), bytes_of("</si>"), tail);
    assert(data.skip(4) =~= inner + (bytes_of("</si>") + tail));
    lemma_first_from_shifted(data, bytes_of("</si>"), 4, 0);
    assert(data.subrange(4, at) =~= inner);
    law_simple_entry_is_scanned(entry);
    assert(entries_scan(data, 0, true, found) == entries_scan(
        data,
        at + 5,
        true,
        found.push(text),
    ));
    lemma_scan_shifted(data, at + 5, 0, true, found.push(text));
    assert(data.skip(at + 5) =~= tail);
}

/// Behind the entries of a list the scan finds none.
proof fn lemma_end_is_scanned(list: SimpleList, found: Seq<Seq<u8>>)
    requires
        all_aside(list.space),
        all_aside(list.epilog),
    ensures
        entries_scan(written(end_markup(list)), 0, true, found) matches Ok((all, _)) && all
            == found,
{
    lemma_names();
    lemma_marker_bytes();
    let close = Markup::Close(bytes_of("sst"));
    lemma_aside_misses(list.space);
    lemma_aside_misses(list.epilog);
    lemma_opens_first(close);
    lemma_misses_entry(close);
    lemma_all_miss(seq![close], list.epilog, bytes_of("<si>"));
    lemma_all_miss(list.space, seq![close] + list.epilog, bytes_of("<si>"));
    let data = written(end_markup(list));
    lemma_scan_passes(end_markup(list), Seq::empty(), found);
    assert(data + Seq::<u8>::empty() =~= data);
}

proof fn lemma_entries_are_scanned(
    entries: Seq<SimpleEntry>,
    list: SimpleList,
    found: Seq<Seq<u8>>,
)
    requires
        forall|i: int| 0 <= i < entries.len() ==> simple_entry(#[trigger] entries[i]),
        all_aside(list.space),
        all_aside(list.epilog),
        total_bytes(found) + total_bytes(entry_bytes(entries)) <= u32::MAX,
    ensures
        entries_scan(
            written(entries_markup(entries)) + written(end_markup(list)),
            0,
            true,
            found,
        ) matches Ok((all, _)) && all == found + entry_bytes(entries),
    decreases entries.len(),
{
    let end = written(end_markup(list));
    if entries.len() == 0 {
        assert(written(entries_markup(entries)) + end =~= end);
        lemma_end_is_scanned(list, found);
        assert(found + entry_bytes(entries) =~= found);
    } else {
        let entry = entries[0];
        let others = entries.skip(1);
        let bytes = entry_text(entry.text);
        assert(simple_entry(entry));
        assert forall|i: int| 0 <= i < others.len() implies simple_entry(#[trigger] others[i]) by {
            assert(others[i] == entries[i + 1]);
        }
        lemma_total_of_first(entry_bytes(entries));
        assert(entry_bytes(entries).skip(1) =~= entry_bytes(others));
        lemma_total_not_negative(entry_bytes(others));
        let more = found.push(bytes);
        assert(more.drop_last() =~= found);
        lemma_entries_are_scanned(others, list, more);
        let tail = written(entries_markup(others)) + end;
        lemma_entry_is_scanned(entry, tail, found);
        lemma_written(entry_markup(entry), entries_markup(others));
        assert(written(entries_markup(entries)) + end =~= written(entry_markup(entry)) + tail);
        assert(more + entry_bytes(others) =~= found + entry_bytes(entries));
    }
}

/// The byte scanner reads a simple list from its bytes.
pub proof fn law_simple_list_is_scanned(list: SimpleList)
    requires
        simple_list(list),
    ensures
        entries_scan(list_document(list), 0, true, Seq::empty()) matches Ok((found, _)) && found
            == entry_bytes(list.entries),
{
    lemma_names();
    lemma_marker_bytes();
    let none = Seq::<Seq<u8>>::empty();
    let start = Markup::Open(bytes_of("sst"), list.attributes);
    let rest = entries_markup(list.entries) + end_markup(list);
    lemma_entries_are_scanned(list.entries, list, none);
    assert(none + entry_bytes(list.entries) =~= entry_bytes(list.entries));
    lemma_written(entries_markup(list.entries), end_markup(list));
    lemma_aside_misses(list.prolog);
    lemma_opens_first(start);
    assert(bytes_of("sst").len() != bytes_of("si").len());
    lemma_misses_entry(start);
    let head = list.prolog + seq![start];
    lemma_all_miss(list.prolog, seq![start], bytes_of("<si>"));
    assert(list_markup(list) =~= head + rest);
    lemma_written(head, rest);
    lemma_scan_passes(head, written(rest), none);
}

} // verus!
