//! Worksheets as their XML has them, cell by cell, and what reading them gives.

use crate::error::{ErrorKind, Failure};
use crate::shared_strings::{
    encoded, no_strings, strings_of, strings_step, too_long, total_bytes, StringsState,
};
use crate::sheet_parser::{
    cell_attributes, no_attributes, sheet_start, sheet_step, type_of, CellAttributes, ContentItem,
    OutcomeItem, PlaceItem, RawCellItem, SheetState, StylesItem,
};
use crate::text::{bytes_of, law_unsigned_texts, lossy_text, unsigned_value};
use crate::utils::{
    a1_position, column_letters, date_numfmt, dimension_of, inline_content,
    law_attribute_is_found, law_reference_names_its_cell, same_letters, states, text_content,
};
use crate::xlsx_stream_lm::{next_cell_run, prelude_run};
use crate::xml::{AttributeItem, TagItem, XmlItem};
use vstd::prelude::*;
use vstd::utf8::*;

verus! {

/// A start tag.
pub open spec fn start(name: &str, attributes: Seq<AttributeItem>) -> XmlItem {
    XmlItem::Start(TagItem { name: bytes_of(name), attributes })
}

/// An end tag.
pub open spec fn end(name: &str) -> XmlItem {
    XmlItem::End(bytes_of(name))
}

/// Whether an event is a start tag with a name.
pub open spec fn starts(item: XmlItem, name: &str) -> bool {
    item matches XmlItem::Start(tag) && tag.name == bytes_of(name)
}

/// Whether an event is neither the end of the document nor malformed.
pub open spec fn goes_on(item: XmlItem) -> bool {
    !(item is Eof) && !(item is Error)
}

/// Whether events stand inside an element: they go on, and none of them ends it.
pub open spec fn inside(items: Seq<XmlItem>, name: &str) -> bool {
    forall|i: int| 0 <= i < items.len() ==> goes_on(#[trigger] items[i]) && items[i] != end(name)
}

/// The text of an event that is text, and of no other.
pub open spec fn own_text(item: XmlItem) -> Seq<char> {
    match item {
        XmlItem::Text(text) => text,
        XmlItem::CData(bytes) => lossy_text(bytes),
        _ => Seq::empty(),
    }
}

/// The text of events, one after the other.
pub open spec fn joined_text(items: Seq<XmlItem>) -> Seq<char>
    decreases items.len(),
{
    if items.len() == 0 {
        Seq::empty()
    } else {
        joined_text(items.drop_last()) + own_text(items.last())
    }
}

/// A piece of an inline string: a `t` element, with its attributes and what stands in it,
/// or an event beside the texts.
pub enum InlinePart {
    Text(Seq<AttributeItem>, Seq<XmlItem>),
    Aside(XmlItem),
}

/// A piece of a cell: a `v` element, an `is` element, each with its attributes and what
/// stands in it, or an event beside them, such as one of a formula.
pub enum CellPart {
    Value(Seq<AttributeItem>, Seq<XmlItem>),
    Inline(Seq<AttributeItem>, Seq<InlinePart>),
    Aside(XmlItem),
}

/// Whether a piece of an inline string is one.
pub open spec fn inline_part_fits(part: InlinePart) -> bool {
    match part {
        InlinePart::Text(_, items) => inside(items, "t"),
        InlinePart::Aside(item) => goes_on(item) && item != end("is") && !starts(item, "t"),
    }
}

/// Whether a piece of a cell is one.
pub open spec fn cell_part_fits(part: CellPart) -> bool {
    match part {
        CellPart::Value(_, items) => inside(items, "v"),
        CellPart::Inline(_, parts) => forall|i: int|
            0 <= i < parts.len() ==> inline_part_fits(#[trigger] parts[i]),
        CellPart::Aside(item) => goes_on(item) && item != end("c") && !starts(item, "v")
            && !starts(item, "is"),
    }
}

/// The events of a piece of an inline string.
pub open spec fn inline_part_events(part: InlinePart) -> Seq<XmlItem> {
    match part {
        InlinePart::Text(attributes, items) => seq![start("t", attributes)] + items + seq![end("t")],
        InlinePart::Aside(item) => seq![item],
    }
}

/// The events of an inline string.
pub open spec fn inline_events(parts: Seq<InlinePart>) -> Seq<XmlItem>
    decreases parts.len(),
{
    if parts.len() == 0 {
        Seq::empty()
    } else {
        inline_part_events(parts[0]) + inline_events(parts.skip(1))
    }
}

/// The events of a piece of a cell.
pub open spec fn cell_part_events(part: CellPart) -> Seq<XmlItem> {
    match part {
        CellPart::Value(attributes, items) => seq![start("v", attributes)] + items + seq![end("v")],
        CellPart::Inline(attributes, parts) => seq![start("is", attributes)] + inline_events(parts)
            + seq![end("is")],
        CellPart::Aside(item) => seq![item],
    }
}

/// The events in a cell.
pub open spec fn cell_events(parts: Seq<CellPart>) -> Seq<XmlItem>
    decreases parts.len(),
{
    if parts.len() == 0 {
        Seq::empty()
    } else {
        cell_part_events(parts[0]) + cell_events(parts.skip(1))
    }
}

/// The text of an inline string: those of its `t` elements, one after the other.
pub open spec fn inline_text(parts: Seq<InlinePart>) -> Seq<char>
    decreases parts.len(),
{
    if parts.len() == 0 {
        Seq::empty()
    } else {
        inline_text(parts.drop_last()) + (match parts.last() {
            InlinePart::Text(_, items) => joined_text(items),
            InlinePart::Aside(_) => Seq::empty(),
        })
    }
}

/// What a cell holds: the text of its last `v` or `is` element, nothing where it has
/// neither.
pub open spec fn cell_content(parts: Seq<CellPart>) -> ContentItem
    decreases parts.len(),
{
    if parts.len() == 0 {
        ContentItem::Empty
    } else {
        match parts.last() {
            CellPart::Value(_, items) => ContentItem::Raw(joined_text(items)),
            CellPart::Inline(_, inner) => ContentItem::Inline(inline_text(inner)),
            CellPart::Aside(_) => cell_content(parts.drop_last()),
        }
    }
}

/// The parser of a sheet between the cells.
pub open spec fn between_cells(state: SheetState) -> bool {
    state.place == PlaceItem::Sheet
}

/// One event that asks for more is passed.
proof fn lemma_one_event(
    state: SheetState,
    styles: StylesItem,
    item: XmlItem,
    rest: Seq<XmlItem>,
)
    requires
        sheet_step(state, styles, item).1 is More,
    ensures
        next_cell_run(state, styles, seq![item] + rest) == next_cell_run(
            sheet_step(state, styles, item).0,
            styles,
            rest,
        ),
{
    assert((seq![item] + rest).skip(1) =~= rest);
}

/// The text of a `v` element is collected.
proof fn lemma_value_is_collected(
    state: SheetState,
    styles: StylesItem,
    cell: RawCellItem,
    text: Seq<char>,
    items: Seq<XmlItem>,
    rest: Seq<XmlItem>,
)
    requires
        inside(items, "v"),
        state.place == PlaceItem::InValue(cell, text),
    ensures
        next_cell_run(state, styles, items + rest) == next_cell_run(
            SheetState { place: PlaceItem::InValue(cell, text + joined_text(items)), ..state },
            styles,
            rest,
        ),
    decreases items.len(),
{
    if items.len() == 0 {
        assert(items + rest =~= rest);
        assert(text + joined_text(items) =~= text);
    } else {
        let front = items.drop_last();
        let last = items.last();
        assert forall|i: int| 0 <= i < front.len() implies goes_on(#[trigger] front[i]) && front[i]
            != end("v") by {
            assert(front[i] == items[i]);
        }
        assert(goes_on(items[items.len() - 1]) && items[items.len() - 1] != end("v"));
        lemma_value_is_collected(state, styles, cell, text, front, seq![last] + rest);
        assert(items + rest =~= front + (seq![last] + rest));
        let before = text + joined_text(front);
        let there = SheetState { place: PlaceItem::InValue(cell, before), ..state };
        lemma_one_event(there, styles, last, rest);
        assert(before + own_text(last) =~= text + joined_text(items));
        if own_text(last).len() == 0 {
            assert(before + own_text(last) =~= before);
        }
    }
}

/// The text of a `t` element of an inline string is collected.
proof fn lemma_inline_text_is_collected(
    state: SheetState,
    styles: StylesItem,
    cell: RawCellItem,
    text: Seq<char>,
    inner: Seq<char>,
    items: Seq<XmlItem>,
    rest: Seq<XmlItem>,
)
    requires
        inside(items, "t"),
        state.place == PlaceItem::InInlineText(cell, text, inner),
    ensures
        next_cell_run(state, styles, items + rest) == next_cell_run(
            SheetState {
                place: PlaceItem::InInlineText(cell, text, inner + joined_text(items)),
                ..state
            },
            styles,
            rest,
        ),
    decreases items.len(),
{
    if items.len() == 0 {
        assert(items + rest =~= rest);
        assert(inner + joined_text(items) =~= inner);
    } else {
        let front = items.drop_last();
        let last = items.last();
        assert forall|i: int| 0 <= i < front.len() implies goes_on(#[trigger] front[i]) && front[i]
            != end("t") by {
            assert(front[i] == items[i]);
        }
        assert(goes_on(items[items.len() - 1]) && items[items.len() - 1] != end("t"));
        lemma_inline_text_is_collected(
            state,
            styles,
            cell,
            text,
            inner,
            front,
            seq![last] + rest,
        );
        assert(items + rest =~= front + (seq![last] + rest));
        let before = inner + joined_text(front);
        let there = SheetState { place: PlaceItem::InInlineText(cell, text, before), ..state };
        lemma_one_event(there, styles, last, rest);
        assert(before + own_text(last) =~= inner + joined_text(items));
        if own_text(last).len() == 0 {
            assert(before + own_text(last) =~= before);
        }
    }
}

proof fn lemma_inline_events(parts: Seq<InlinePart>)
    requires
        parts.len() > 0,
    ensures
        inline_events(parts) == inline_events(parts.drop_last()) + inline_part_events(parts.last()),
    decreases parts.len(),
{
    let last = inline_part_events(parts.last());
    if parts.len() == 1 {
        assert(inline_events(parts.skip(1)) =~= Seq::<XmlItem>::empty());
        assert(inline_events(parts.drop_last()) =~= Seq::<XmlItem>::empty());
        assert(inline_events(parts) =~= last);
        assert(inline_events(parts.drop_last()) + last =~= last);
    } else {
        lemma_inline_events(parts.skip(1));
        assert(parts.skip(1).drop_last() =~= parts.drop_last().skip(1));
        assert(inline_events(parts) =~= inline_events(parts.drop_last()) + last);
    }
}

/// The text of an inline string is collected.
proof fn lemma_inline_is_collected(
    state: SheetState,
    styles: StylesItem,
    cell: RawCellItem,
    parts: Seq<InlinePart>,
    rest: Seq<XmlItem>,
)
    requires
        forall|i: int| 0 <= i < parts.len() ==> inline_part_fits(#[trigger] parts[i]),
        state.place == PlaceItem::InInline(cell, Seq::empty()),
    ensures
        next_cell_run(state, styles, inline_events(parts) + rest) == next_cell_run(
            SheetState { place: PlaceItem::InInline(cell, inline_text(parts)), ..state },
            styles,
            rest,
        ),
    decreases parts.len(),
{
    if parts.len() == 0 {
        assert(inline_events(parts) + rest =~= rest);
        assert(inline_text(parts) =~= Seq::<char>::empty());
    } else {
        let front = parts.drop_last();
        assert forall|i: int| 0 <= i < front.len() implies inline_part_fits(
            #[trigger] front[i],
        ) by {
            assert(front[i] == parts[i]);
        }
        lemma_inline_events(parts);
        let part = parts.last();
        assert(inline_part_fits(parts[parts.len() - 1]));
        let events = inline_part_events(part);
        lemma_inline_is_collected(state, styles, cell, front, events + rest);
        assert(inline_events(parts) + rest =~= inline_events(front) + (events + rest));
        let text = inline_text(front);
        let there = SheetState { place: PlaceItem::InInline(cell, text), ..state };
        match part {
            InlinePart::Aside(item) => {
                lemma_one_event(there, styles, item, rest);
                assert(inline_text(parts) =~= text);
            },
            InlinePart::Text(attributes, items) => {
                let none = Seq::<char>::empty();
                let opened = SheetState {
                    place: PlaceItem::InInlineText(cell, text, none),
                    ..state
                };
                let tail = seq![end("t")] + rest;
                assert(events + rest =~= seq![start("t", attributes)] + (items + tail));
                lemma_one_event(there, styles, start("t", attributes), items + tail);
                lemma_inline_text_is_collected(opened, styles, cell, text, none, items, tail);
                assert(none + joined_text(items) =~= joined_text(items));
                let read = SheetState {
                    place: PlaceItem::InInlineText(cell, text, joined_text(items)),
                    ..state
                };
                lemma_one_event(read, styles, end("t"), rest);
            },
        }
    }
}

/// What a cell holds after more pieces.
spec fn content_after(content: ContentItem, parts: Seq<CellPart>) -> ContentItem
    decreases parts.len(),
{
    if parts.len() == 0 {
        content
    } else {
        match parts.last() {
            CellPart::Value(_, items) => ContentItem::Raw(joined_text(items)),
            CellPart::Inline(_, inner) => ContentItem::Inline(inline_text(inner)),
            CellPart::Aside(_) => content_after(content, parts.drop_last()),
        }
    }
}

proof fn lemma_content_after(parts: Seq<CellPart>)
    ensures
        content_after(ContentItem::Empty, parts) == cell_content(parts),
    decreases parts.len(),
{
    if parts.len() > 0 {
        lemma_content_after(parts.drop_last());
    }
}

proof fn lemma_content_of_first(content: ContentItem, parts: Seq<CellPart>)
    requires
        parts.len() > 0,
    ensures
        content_after(content, parts) == content_after(
            content_after(content, seq![parts[0]]),
            parts.skip(1),
        ),
    decreases parts.len(),
{
    assert(seq![parts[0]].drop_last() =~= Seq::<CellPart>::empty());
    if parts.len() == 1 {
        assert(parts =~= seq![parts[0]]);
        assert(parts.skip(1) =~= Seq::<CellPart>::empty());
    } else {
        lemma_content_of_first(content, parts.drop_last());
        assert(parts.drop_last().skip(1) =~= parts.skip(1).drop_last());
    }
}

/// The pieces of a cell are read, and its end tag completes it.
proof fn lemma_cell_parts(
    state: SheetState,
    styles: StylesItem,
    cell: RawCellItem,
    parts: Seq<CellPart>,
    rest: Seq<XmlItem>,
)
    requires
        forall|i: int| 0 <= i < parts.len() ==> cell_part_fits(#[trigger] parts[i]),
        state.place == PlaceItem::InCell(cell),
    ensures
        next_cell_run(state, styles, cell_events(parts) + (seq![end("c")] + rest)) == (
            Ok::<Option<RawCellItem>, Failure>(
                Some(RawCellItem { content: content_after(cell.content, parts), ..cell }),
            ),
            SheetState { place: PlaceItem::Sheet, ..state },
            rest,
        ),
    decreases parts.len(),
{
    let tail = seq![end("c")] + rest;
    if parts.len() == 0 {
        assert(cell_events(parts) + tail =~= tail);
        assert(tail.skip(1) =~= rest);
    } else {
        lemma_names();
        let part = parts[0];
        let others = parts.skip(1);
        assert(cell_part_fits(part));
        assert forall|i: int| 0 <= i < others.len() implies cell_part_fits(
            #[trigger] others[i],
        ) by {
            assert(others[i] == parts[i + 1]);
        }
        let later = cell_events(others) + tail;
        assert(cell_events(parts) + tail =~= cell_part_events(part) + later);
        lemma_content_of_first(cell.content, parts);
        assert(seq![part].drop_last() =~= Seq::<CellPart>::empty());
        assert(seq![part].last() == part);
        let content = content_after(cell.content, seq![part]);
        let read = RawCellItem { content, ..cell };
        let there = SheetState { place: PlaceItem::InCell(read), ..state };
        lemma_cell_parts(there, styles, read, others, rest);
        match part {
            CellPart::Aside(item) => {
                assert(content_after(cell.content, seq![part].drop_last()) == cell.content);
                lemma_one_event(state, styles, item, later);
            },
            CellPart::Value(attributes, items) => {
                let none = Seq::<char>::empty();
                let opened = SheetState { place: PlaceItem::InValue(cell, none), ..state };
                let closing = seq![end("v")] + later;
                assert(cell_part_events(part) + later =~= seq![start("v", attributes)] + (items
                    + closing));
                lemma_one_event(state, styles, start("v", attributes), items + closing);
                lemma_value_is_collected(opened, styles, cell, none, items, closing);
                assert(none + joined_text(items) =~= joined_text(items));
                let full = SheetState {
                    place: PlaceItem::InValue(cell, joined_text(items)),
                    ..state
                };
                lemma_one_event(full, styles, end("v"), later);
            },
            CellPart::Inline(attributes, inner) => {
                let none = Seq::<char>::empty();
                let opened = SheetState { place: PlaceItem::InInline(cell, none), ..state };
                let closing = seq![end("is")] + later;
                assert(cell_part_events(part) + later =~= seq![start("is", attributes)] + (
                inline_events(inner) + closing));
                lemma_one_event(
                    state,
                    styles,
                    start("is", attributes),
                    inline_events(inner) + closing,
                );
                lemma_inline_is_collected(opened, styles, cell, inner, closing);
                let full = SheetState {
                    place: PlaceItem::InInline(cell, inline_text(inner)),
                    ..state
                };
                lemma_one_event(full, styles, end("is"), later);
            },
        }
    }
}

/// The names of the elements of a sheet differ.
proof fn lemma_names()
    ensures
        bytes_of("v") != bytes_of("is"),
        bytes_of("row") != bytes_of("c"),
        bytes_of("row") != bytes_of("sheetData"),
        bytes_of("dimension") != bytes_of("sheetData"),
        bytes_of("r") != bytes_of("t"),
        bytes_of("r") != bytes_of("s"),
        bytes_of("t") != bytes_of("s"),
{
    reveal_strlit("v");
    reveal_strlit("is");
    reveal_strlit("row");
    reveal_strlit("c");
    reveal_strlit("sheetData");
    reveal_strlit("dimension");
    reveal_strlit("r");
    reveal_strlit("t");
    reveal_strlit("s");
    is_ascii_chars_encode_utf8("v"@);
    is_ascii_chars_encode_utf8("is"@);
    is_ascii_chars_encode_utf8("row"@);
    is_ascii_chars_encode_utf8("c"@);
    is_ascii_chars_encode_utf8("sheetData"@);
    is_ascii_chars_encode_utf8("dimension"@);
    is_ascii_chars_encode_utf8("r"@);
    is_ascii_chars_encode_utf8("t"@);
    is_ascii_chars_encode_utf8("s"@);
    assert(bytes_of("r")[0] == 114 && bytes_of("t")[0] == 116 && bytes_of("s")[0] == 115);
}

/// The value that the last attribute with a key states.
pub(crate) open spec fn last_value(attributes: Seq<AttributeItem>, key: Seq<u8>) -> Option<Seq<u8>>
    decreases attributes.len(),
{
    if attributes.len() == 0 {
        None
    } else {
        match last_value(attributes.skip(1), key) {
            Some(v) => Some(v),
            None => if attributes[0]->key == key {
                Some(attributes[0]->value)
            } else {
                None
            },
        }
    }
}

pub(crate) proof fn lemma_last_value(
    attributes: Seq<AttributeItem>,
    key: Seq<u8>,
    value: Option<Seq<u8>>,
)
    requires
        states(attributes, key, value),
    ensures
        last_value(attributes, key) == value,
    decreases attributes.len(),
{
    if attributes.len() > 0 {
        let rest = attributes.skip(1);
        assert(attributes[0] is Pair);
        assert forall|i: int| 0 <= i < rest.len() implies (#[trigger] rest[i]) is Pair && (
        rest[i]->key == key && value is Some ==> rest[i]->value == value->0) && (value is None
            ==> rest[i]->key != key) by {
            assert(rest[i] == attributes[i + 1]);
        }
        if exists|i: int| 0 <= i < rest.len() && (#[trigger] rest[i])->key == key {
            lemma_last_value(rest, key, value);
        } else {
            lemma_last_value(rest, key, None);
            if value is Some {
                let i = choose|i: int|
                    0 <= i < attributes.len() && (#[trigger] attributes[i])->key == key;
                if i > 0 {
                    assert(rest[i - 1] == attributes[i]);
                }
                assert(i == 0);
            }
        }
    }
}

proof fn lemma_cell_attributes(attributes: Seq<AttributeItem>, so_far: CellAttributes)
    requires
        forall|i: int| 0 <= i < attributes.len() ==> (#[trigger] attributes[i]) is Pair,
    ensures
        cell_attributes(attributes, so_far) == Ok::<CellAttributes, Failure>(
            CellAttributes {
                position: match last_value(attributes, bytes_of("r")) {
                    Some(v) => Some(a1_position(v)),
                    None => so_far.position,
                },
                kind: match last_value(attributes, bytes_of("t")) {
                    Some(v) => type_of(v),
                    None => so_far.kind,
                },
                style: match last_value(attributes, bytes_of("s")) {
                    Some(v) => unsigned_value(v, usize::MAX as int),
                    None => so_far.style,
                },
            },
        ),
    decreases attributes.len(),
{
    lemma_names();
    if attributes.len() > 0 {
        let rest = attributes.skip(1);
        assert(attributes[0] is Pair);
        let key = attributes[0]->key;
        let value = attributes[0]->value;
        assert forall|i: int| 0 <= i < rest.len() implies (#[trigger] rest[i]) is Pair by {
            assert(rest[i] == attributes[i + 1]);
        }
        let next = if key == bytes_of("r") {
            CellAttributes { position: Some(a1_position(value)), ..so_far }
        } else if key == bytes_of("t") {
            CellAttributes { kind: type_of(value), ..so_far }
        } else if key == bytes_of("s") {
            CellAttributes { style: unsigned_value(value, usize::MAX as int), ..so_far }
        } else {
            so_far
        };
        lemma_cell_attributes(rest, next);
    }
}

/// Whether a style, given by its number in the list of styles, shows dates.
pub open spec fn shows_dates(styles: StylesItem, style: Option<Seq<u8>>) -> bool {
    style matches Some(digits) && (unsigned_value(digits, usize::MAX as int) matches Some(k) && k
        < styles.cell_xfs.len() && date_numfmt(styles.cell_xfs[k], styles.custom_date_numfmts))
}

/// A cell is read whole, whatever else stands in it, and its own end tag ends it: it lies
/// where its `r` attribute says, or where the last one lay; its `t` attribute gives its
/// type; and it holds the text of its last `v` or `is` element. What follows it is left.
/// The first cell of a column with an `s` attribute settles whether the column shows dates.
pub proof fn law_cell_is_read(
    state: SheetState,
    styles: StylesItem,
    attributes: Seq<AttributeItem>,
    reference: Option<Seq<u8>>,
    kind: Option<Seq<u8>>,
    style: Option<Seq<u8>>,
    parts: Seq<CellPart>,
    rest: Seq<XmlItem>,
)
    requires
        between_cells(state),
        states(attributes, bytes_of("r"), reference),
        states(attributes, bytes_of("t"), kind),
        states(attributes, bytes_of("s"), style),
        forall|i: int| 0 <= i < parts.len() ==> cell_part_fits(#[trigger] parts[i]),
    ensures
        ({
            let events = seq![start("c", attributes)] + (cell_events(parts) + (seq![end("c")]
                + rest));
            let (read, after, left) = next_cell_run(state, styles, events);
            &&& left == rest
            &&& read matches Ok(Some(cell)) && {
                &&& match reference {
                    Some(r) => (cell.row, cell.col) == a1_position(r),
                    None => (cell.row, cell.col) == (state.row, state.col),
                }
                &&& match kind {
                    Some(t) => cell.kind == type_of(t),
                    None => cell.kind is None,
                }
                &&& cell.content == cell_content(parts)
                &&& if state.dates.contains_key(cell.col) {
                    &&& cell.is_date == state.dates[cell.col]
                    &&& after.dates == state.dates
                } else {
                    &&& cell.is_date == shows_dates(styles, style)
                    &&& after.dates == (if style is Some && unsigned_value(
                        style->0,
                        usize::MAX as int,
                    ) is Some {
                        state.dates.insert(cell.col, cell.is_date)
                    } else {
                        state.dates
                    })
                }
                &&& (after.row, after.col) == (cell.row, cell.col)
                &&& between_cells(after)
                &&& after.dimensions == state.dimensions
            }
        }),
{
    lemma_names();
    lemma_last_value(attributes, bytes_of("r"), reference);
    lemma_last_value(attributes, bytes_of("t"), kind);
    lemma_last_value(attributes, bytes_of("s"), style);
    lemma_cell_attributes(attributes, no_attributes());
    let tail = cell_events(parts) + (seq![end("c")] + rest);
    lemma_one_event(state, styles, start("c", attributes), tail);
    let there = sheet_step(state, styles, start("c", attributes)).0;
    let cell = there.place->InCell_0;
    assert(there.place == PlaceItem::InCell(cell));
    lemma_cell_parts(there, styles, cell, parts, rest);
    lemma_content_after(parts);
    if let Some(digits) = style {
        if let Some(k) = unsigned_value(digits, usize::MAX as int) {
            law_unsigned_texts(digits, k, usize::MAX as int);
        }
    }
}

/// The cell of a formula, and any other with one `v` element, holds the text of that
/// element: what stands before and behind it in the cell has no say.
pub proof fn law_value_cell_is_read(
    state: SheetState,
    styles: StylesItem,
    attributes: Seq<AttributeItem>,
    letters: Seq<u8>,
    row: nat,
    col: nat,
    before: Seq<XmlItem>,
    text: Seq<char>,
    behind: Seq<XmlItem>,
    rest: Seq<XmlItem>,
)
    requires
        between_cells(state),
        same_letters(letters, column_letters(col)),
        1 <= row <= u32::MAX,
        1 <= col <= u32::MAX,
        states(
            attributes,
            bytes_of("r"),
            Some(letters + encode_utf8(crate::text::decimal_digits(row))),
        ),
        forall|i: int|
            0 <= i < before.len() ==> cell_part_fits(CellPart::Aside(#[trigger] before[i])),
        forall|i: int|
            0 <= i < behind.len() ==> cell_part_fits(CellPart::Aside(#[trigger] behind[i])),
    ensures
        ({
            let value = seq![start("v", Seq::empty()), XmlItem::Text(text), end("v")];
            let events = seq![start("c", attributes)] + before + value + behind + seq![end("c")]
                + rest;
            let (read, _, left) = next_cell_run(state, styles, events);
            &&& left == rest
            &&& read matches Ok(Some(cell)) && cell.row == row - 1 && cell.col == col - 1
                && cell.content == ContentItem::Raw(text)
        }),
{
    let reference = letters + encode_utf8(crate::text::decimal_digits(row));
    law_reference_names_its_cell(letters, row, col);
    let text_item = XmlItem::Text(text);
    let value = seq![start("v", Seq::empty()), text_item, end("v")];
    let events = seq![start("c", attributes)] + before + value + behind + seq![end("c")] + rest;
    let lead = before.map_values(|item: XmlItem| CellPart::Aside(item));
    let trail = behind.map_values(|item: XmlItem| CellPart::Aside(item));
    let own = CellPart::Value(Seq::empty(), seq![text_item]);
    let parts = lead + seq![own] + trail;
    assert forall|i: int| 0 <= i < parts.len() implies cell_part_fits(#[trigger] parts[i]) by {
        if i < lead.len() {
            assert(parts[i] == CellPart::Aside(before[i]));
        } else if i > lead.len() {
            assert(parts[i] == CellPart::Aside(behind[i - lead.len() - 1]));
        } else {
            assert(inside(seq![text_item], "v"));
        }
    }
    lemma_asides(before);
    lemma_asides(behind);
    lemma_cell_events(lead + seq![own], trail);
    lemma_cell_events(lead, seq![own]);
    assert(seq![own].skip(1) =~= Seq::<CellPart>::empty());
    assert(cell_events(Seq::<CellPart>::empty()) =~= Seq::<XmlItem>::empty());
    assert(cell_events(seq![own]) =~= value);
    let tail = seq![end("c")] + rest;
    assert(events =~= seq![start("c", attributes)] + (cell_events(parts) + tail));
    assert(joined_text(seq![text_item]) =~= text) by {
        assert(seq![text_item].drop_last() =~= Seq::<XmlItem>::empty());
        assert(joined_text(Seq::<XmlItem>::empty()) =~= Seq::<char>::empty());
    }
    lemma_content_before_asides(lead + seq![own], behind);
    assert((lead + seq![own]).last() == own);
    lemma_cell_with_reference(state, styles, attributes, reference, parts, rest);
}

/// Where a cell lies and what it holds depends on no attribute but its reference.
proof fn lemma_cell_with_reference(
    state: SheetState,
    styles: StylesItem,
    attributes: Seq<AttributeItem>,
    reference: Seq<u8>,
    parts: Seq<CellPart>,
    rest: Seq<XmlItem>,
)
    requires
        between_cells(state),
        states(attributes, bytes_of("r"), Some(reference)),
        forall|i: int| 0 <= i < parts.len() ==> cell_part_fits(#[trigger] parts[i]),
    ensures
        ({
            let events = seq![start("c", attributes)] + (cell_events(parts) + (seq![end("c")]
                + rest));
            let (read, _, left) = next_cell_run(state, styles, events);
            &&& left == rest
            &&& read matches Ok(Some(cell)) && (cell.row, cell.col) == a1_position(reference)
                && cell.content == cell_content(parts)
        }),
{
    lemma_names();
    lemma_last_value(attributes, bytes_of("r"), Some(reference));
    lemma_cell_attributes(attributes, no_attributes());
    let tail = cell_events(parts) + (seq![end("c")] + rest);
    lemma_one_event(state, styles, start("c", attributes), tail);
    let there = sheet_step(state, styles, start("c", attributes)).0;
    let cell = there.place->InCell_0;
    assert(there.place == PlaceItem::InCell(cell));
    lemma_cell_parts(there, styles, cell, parts, rest);
    lemma_content_after(parts);
}

proof fn lemma_asides(items: Seq<XmlItem>)
    ensures
        cell_events(items.map_values(|item: XmlItem| CellPart::Aside(item))) == items,
    decreases items.len(),
{
    let parts = items.map_values(|item: XmlItem| CellPart::Aside(item));
    if items.len() == 0 {
        assert(cell_events(parts) =~= items);
    } else {
        lemma_asides(items.skip(1));
        assert(parts.skip(1) =~= items.skip(1).map_values(|item: XmlItem| CellPart::Aside(item)));
        assert(cell_events(parts) =~= items);
    }
}

proof fn lemma_cell_events(first: Seq<CellPart>, rest: Seq<CellPart>)
    ensures
        cell_events(first + rest) == cell_events(first) + cell_events(rest),
    decreases first.len(),
{
    if first.len() == 0 {
        assert(first + rest =~= rest);
        assert(cell_events(first) + cell_events(rest) =~= cell_events(rest));
    } else {
        lemma_cell_events(first.skip(1), rest);
        assert((first + rest).skip(1) =~= first.skip(1) + rest);
        assert(cell_events(first + rest) =~= cell_events(first) + cell_events(rest));
    }
}

proof fn lemma_content_before_asides(parts: Seq<CellPart>, items: Seq<XmlItem>)
    ensures
        cell_content(parts + items.map_values(|item: XmlItem| CellPart::Aside(item)))
            == cell_content(parts),
    decreases items.len(),
{
    let trail = items.map_values(|item: XmlItem| CellPart::Aside(item));
    if items.len() == 0 {
        assert(parts + trail =~= parts);
    } else {
        lemma_content_before_asides(parts, items.drop_last());
        assert((parts + trail).drop_last() =~= parts + items.drop_last().map_values(
            |item: XmlItem| CellPart::Aside(item),
        ));
        assert((parts + trail).last() == trail.last());
    }
}

/// A cell is completed by the end tag of its own `c` element, and then as it was read so
/// far; or it is an empty-element tag, and then holds nothing. No other event completes
/// one.
pub proof fn law_only_its_end_completes_a_cell(
    state: SheetState,
    styles: StylesItem,
    item: XmlItem,
)
    ensures
        sheet_step(state, styles, item).1 matches OutcomeItem::Cell(cell) ==> (item == end("c")
            && state.place == PlaceItem::InCell(cell)) || (between_cells(state)
            && (item matches XmlItem::Empty(tag) && tag.name == bytes_of("c")) && cell.content
            == ContentItem::Empty && cell.kind is None && !cell.is_date),
{
}

/// Whether an event between the cells has no say in them: it goes on, and is no tag of a
/// row, of a cell or of the sheet's data.
pub open spec fn beside_cells(item: XmlItem) -> bool {
    &&& goes_on(item)
    &&& item != end("row")
    &&& item != end("sheetData")
    &&& !(item matches XmlItem::Start(tag) && (tag.name == bytes_of("row") || tag.name == bytes_of(
        "c",
    )))
    &&& !(item matches XmlItem::Empty(tag) && tag.name == bytes_of("c"))
}

/// What stands between the cells is passed.
pub proof fn law_events_between_cells_are_passed(
    state: SheetState,
    styles: StylesItem,
    items: Seq<XmlItem>,
    rest: Seq<XmlItem>,
)
    requires
        between_cells(state),
        forall|i: int| 0 <= i < items.len() ==> beside_cells(#[trigger] items[i]),
    ensures
        next_cell_run(state, styles, items + rest) == next_cell_run(state, styles, rest),
    decreases items.len(),
{
    if items.len() == 0 {
        assert(items + rest =~= rest);
    } else {
        let others = items.skip(1);
        assert(beside_cells(items[0]));
        assert(items + rest =~= seq![items[0]] + (others + rest));
        lemma_one_event(state, styles, items[0], others + rest);
        assert forall|i: int| 0 <= i < others.len() implies beside_cells(#[trigger] others[i]) by {
            assert(others[i] == items[i + 1]);
        }
        law_events_between_cells_are_passed(state, styles, others, rest);
    }
}

/// A row starts: the cells that follow lie in the row that its `r` attribute numbers,
/// counted from 1, where they say nothing else. A row without a number changes nothing, and
/// one whose number is none is refused.
pub proof fn law_row_starts(
    state: SheetState,
    styles: StylesItem,
    attributes: Seq<AttributeItem>,
    number: Option<Seq<u8>>,
    rest: Seq<XmlItem>,
)
    requires
        between_cells(state),
        states(attributes, bytes_of("r"), number),
    ensures
        ({
            let events = seq![start("row", attributes)] + rest;
            match number {
                None => next_cell_run(state, styles, events) == next_cell_run(state, styles, rest),
                Some(digits) => match unsigned_value(
                    encode_utf8(lossy_text(digits)),
                    u32::MAX as int,
                ) {
                    Some(n) => next_cell_run(state, styles, events) == next_cell_run(
                        SheetState {
                            row: if n == 0 {
                                0
                            } else {
                                n - 1
                            },
                            ..state
                        },
                        styles,
                        rest,
                    ),
                    None => next_cell_run(state, styles, events).0 matches Err(e) && e.kind
                        == ErrorKind::RowNumber && next_cell_run(state, styles, events).2 == rest,
                },
            }
        }),
{
    law_attribute_is_found(attributes, bytes_of("r"), number);
    let item = start("row", attributes);
    assert((seq![item] + rest).skip(1) =~= rest);
    if sheet_step(state, styles, item).1 is More {
        lemma_one_event(state, styles, item, rest);
    }
}

/// A row ends: the next one is the row after it, from its first column on.
pub proof fn law_row_ends(state: SheetState, styles: StylesItem, rest: Seq<XmlItem>)
    requires
        between_cells(state),
        0 <= state.row < u32::MAX,
    ensures
        next_cell_run(state, styles, seq![end("row")] + rest) == next_cell_run(
            SheetState { row: state.row + 1, col: 0, ..state },
            styles,
            rest,
        ),
{
    lemma_one_event(state, styles, end("row"), rest);
}

/// A cell that is an empty-element tag is read too: it holds nothing, and lies where its
/// reference says, or where the last one lay.
pub proof fn law_empty_cell_is_read(
    state: SheetState,
    styles: StylesItem,
    attributes: Seq<AttributeItem>,
    reference: Option<Seq<u8>>,
    rest: Seq<XmlItem>,
)
    requires
        between_cells(state),
        0 <= state.row <= u32::MAX,
        0 <= state.col <= u32::MAX,
        states(attributes, bytes_of("r"), reference),
    ensures
        ({
            let tag = TagItem { name: bytes_of("c"), attributes };
            let (read, after, left) = next_cell_run(
                state,
                styles,
                seq![XmlItem::Empty(tag)] + rest,
            );
            &&& left == rest
            &&& read matches Ok(Some(cell)) && {
                &&& (cell.row, cell.col) == (match reference {
                    Some(r) => a1_position(encode_utf8(lossy_text(r))),
                    None => (state.row, state.col),
                })
                &&& cell.content == ContentItem::Empty
                &&& after == (SheetState { row: cell.row, col: cell.col, ..state })
            }
        }),
{
    law_attribute_is_found(attributes, bytes_of("r"), reference);
    let item = XmlItem::Empty(TagItem { name: bytes_of("c"), attributes });
    assert((seq![item] + rest).skip(1) =~= rest);
}

/// The end of the sheet's data is the end of its cells, now and later; and a document that
/// ends before it is refused.
pub proof fn law_cells_end(state: SheetState, styles: StylesItem, rest: Seq<XmlItem>)
    requires
        between_cells(state),
    ensures
        ({
            let (read, after, left) = next_cell_run(state, styles, seq![end("sheetData")] + rest);
            &&& read == Ok::<Option<RawCellItem>, Failure>(None)
            &&& left == rest
            &&& next_cell_run(after, styles, seq![XmlItem::Eof]).0 == Ok::<
                Option<RawCellItem>,
                Failure,
            >(None)
        }),
        next_cell_run(state, styles, seq![XmlItem::Eof]).0 matches Err(e) && e.kind
            == ErrorKind::UnexpectedEof,
{
    let item = end("sheetData");
    lemma_names();
    assert(bytes_of("sheetData") != bytes_of("row"));
    assert((seq![item] + rest).skip(1) =~= rest);
}

/// Whether an event before the sheet's data has no say in it: it goes on, and is no tag
/// that states the used range or starts the data.
pub open spec fn before_data(item: XmlItem) -> bool {
    &&& goes_on(item)
    &&& !(item matches XmlItem::Start(tag) && (tag.name == bytes_of("dimension") || tag.name
        == bytes_of("sheetData")))
    &&& !(item matches XmlItem::Empty(tag) && (tag.name == bytes_of("dimension") || tag.name
        == bytes_of("sheetData")))
}

proof fn lemma_before_data(
    state: SheetState,
    styles: StylesItem,
    items: Seq<XmlItem>,
    rest: Seq<XmlItem>,
)
    requires
        state.place == PlaceItem::Prelude,
        forall|i: int| 0 <= i < items.len() ==> before_data(#[trigger] items[i]),
    ensures
        prelude_run(state, styles, items + rest) == prelude_run(state, styles, rest),
    decreases items.len(),
{
    if items.len() == 0 {
        assert(items + rest =~= rest);
    } else {
        let others = items.skip(1);
        assert(before_data(items[0]));
        assert((items + rest).skip(1) =~= others + rest);
        assert forall|i: int| 0 <= i < others.len() implies before_data(#[trigger] others[i]) by {
            assert(others[i] == items[i + 1]);
        }
        lemma_before_data(state, styles, others, rest);
    }
}

/// A sheet is opened at its data, with the used range that it states, whatever else stands
/// before the data: the range from one cell to another, or of one cell.
pub proof fn law_sheet_is_opened(
    styles: StylesItem,
    lead: Seq<XmlItem>,
    attributes: Seq<AttributeItem>,
    range: Seq<u8>,
    corners: ((int, int), (int, int)),
    more: Seq<XmlItem>,
    data: Seq<AttributeItem>,
    rest: Seq<XmlItem>,
)
    requires
        forall|i: int| 0 <= i < lead.len() ==> before_data(#[trigger] lead[i]),
        forall|i: int| 0 <= i < more.len() ==> before_data(#[trigger] more[i]),
        states(attributes, bytes_of("ref"), Some(range)),
        dimension_of(encode_utf8(lossy_text(range))) == Ok::<((int, int), (int, int)), Failure>(
            corners,
        ),
    ensures
        ({
            let dimension = TagItem { name: bytes_of("dimension"), attributes };
            let tail = more + (seq![start("sheetData", data)] + rest);
            let opened = Ok::<(SheetState, Seq<XmlItem>), Failure>(
                (
                    SheetState {
                        dimensions: corners,
                        place: PlaceItem::Sheet,
                        row: 0,
                        col: 0,
                        dates: Map::empty(),
                    },
                    rest,
                ),
            );
            &&& prelude_run(
                sheet_start(),
                styles,
                lead + (seq![XmlItem::Empty(dimension)] + tail),
            ) == opened
            &&& prelude_run(
                sheet_start(),
                styles,
                lead + (seq![XmlItem::Start(dimension)] + tail),
            ) == opened
        }),
{
    lemma_names();
    law_attribute_is_found(attributes, bytes_of("ref"), Some(range));
    let dimension = TagItem { name: bytes_of("dimension"), attributes };
    let data_start = start("sheetData", data);
    let tail = more + (seq![data_start] + rest);
    let first = sheet_start();
    let ranged = SheetState { dimensions: corners, ..first };
    lemma_before_data(first, styles, lead, seq![XmlItem::Empty(dimension)] + tail);
    lemma_before_data(first, styles, lead, seq![XmlItem::Start(dimension)] + tail);
    assert((seq![XmlItem::Empty(dimension)] + tail).skip(1) =~= tail);
    assert((seq![XmlItem::Start(dimension)] + tail).skip(1) =~= tail);
    lemma_before_data(ranged, styles, more, seq![data_start] + rest);
    assert((seq![data_start] + rest).skip(1) =~= rest);
}

/// Malformed XML is refused wherever it stands in a sheet, and so is a sheet that ends in a
/// cell or among its cells; before its data and behind it a sheet may end.
pub proof fn law_torn_sheet_is_refused(state: SheetState, styles: StylesItem, message: Seq<char>)
    ensures
        sheet_step(state, styles, XmlItem::Error(message)).1 matches OutcomeItem::Fail(e) && e.kind
            == ErrorKind::Xml,
        !(state.place is Prelude) && !(state.place is Outside) ==> (sheet_step(
            state,
            styles,
            XmlItem::Eof,
        ).1 matches OutcomeItem::Fail(e) && e.kind == ErrorKind::UnexpectedEof),
        state.place is Prelude ==> sheet_step(state, styles, XmlItem::Eof).1 is Started,
        state.place is Outside ==> sheet_step(state, styles, XmlItem::Eof).1 is End,
{
}

/// The text of an element is what stands in it, up to its own end tag, and what follows that
/// is left.
pub proof fn law_text_is_read(
    name: &str,
    items: Seq<XmlItem>,
    text: Seq<char>,
    rest: Seq<XmlItem>,
)
    requires
        inside(items, name),
    ensures
        text_content(items + (seq![end(name)] + rest), text, bytes_of(name)) == Ok::<
            (Seq<char>, Seq<XmlItem>),
            Failure,
        >((text + joined_text(items), rest)),
    decreases items.len(),
{
    let tail = seq![end(name)] + rest;
    if items.len() == 0 {
        assert(items + tail =~= tail);
        assert(text + joined_text(items) =~= text);
        assert(tail.skip(1) =~= rest);
    } else {
        let item = items[0];
        let others = items.skip(1);
        assert(goes_on(items[0]) && items[0] != end(name));
        assert forall|i: int| 0 <= i < others.len() implies goes_on(#[trigger] others[i])
            && others[i] != end(name) by {
            assert(others[i] == items[i + 1]);
        }
        assert((items + tail).skip(1) =~= others + tail);
        law_text_is_read(name, others, text + own_text(item), rest);
        lemma_joined_first(items);
        assert(text + own_text(item) + joined_text(others) =~= text + joined_text(items));
        if own_text(item).len() == 0 {
            assert(text + own_text(item) =~= text);
        }
    }
}

proof fn lemma_joined_first(items: Seq<XmlItem>)
    requires
        items.len() > 0,
    ensures
        joined_text(items) == own_text(items[0]) + joined_text(items.skip(1)),
    decreases items.len(),
{
    if items.len() == 1 {
        assert(joined_text(items.drop_last()) =~= Seq::<char>::empty());
        assert(joined_text(items.skip(1)) =~= Seq::<char>::empty());
        assert(joined_text(items) =~= own_text(items[0]) + joined_text(items.skip(1)));
    } else {
        lemma_joined_first(items.drop_last());
        assert(items.drop_last().skip(1) =~= items.skip(1).drop_last());
        assert(joined_text(items) =~= own_text(items[0]) + joined_text(items.skip(1)));
    }
}

proof fn lemma_inline_first(parts: Seq<InlinePart>)
    requires
        parts.len() > 0,
    ensures
        inline_text(parts) == (match parts[0] {
            InlinePart::Text(_, items) => joined_text(items),
            InlinePart::Aside(_) => Seq::empty(),
        }) + inline_text(parts.skip(1)),
    decreases parts.len(),
{
    let first = match parts[0] {
        InlinePart::Text(_, items) => joined_text(items),
        InlinePart::Aside(_) => Seq::empty(),
    };
    if parts.len() == 1 {
        assert(inline_text(parts.drop_last()) =~= Seq::<char>::empty());
        assert(inline_text(parts.skip(1)) =~= Seq::<char>::empty());
        assert(inline_text(parts) =~= first + inline_text(parts.skip(1)));
    } else {
        lemma_inline_first(parts.drop_last());
        assert(parts.drop_last().skip(1) =~= parts.skip(1).drop_last());
        assert(inline_text(parts) =~= first + inline_text(parts.skip(1)));
    }
}

/// An inline string is the texts of its `t` elements, one after the other, up to its own end
/// tag, and what follows that is left.
pub proof fn law_inline_string_is_read(
    parts: Seq<InlinePart>,
    text: Seq<char>,
    rest: Seq<XmlItem>,
)
    requires
        forall|i: int| 0 <= i < parts.len() ==> inline_part_fits(#[trigger] parts[i]),
    ensures
        inline_content(inline_events(parts) + (seq![end("is")] + rest), text) == Ok::<
            (Seq<char>, Seq<XmlItem>),
            Failure,
        >((text + inline_text(parts), rest)),
    decreases parts.len(),
{
    let tail = seq![end("is")] + rest;
    if parts.len() == 0 {
        assert(inline_events(parts) + tail =~= tail);
        assert(text + inline_text(parts) =~= text);
        assert(tail.skip(1) =~= rest);
    } else {
        let others = parts.skip(1);
        assert(inline_part_fits(parts[0]));
        assert forall|i: int| 0 <= i < others.len() implies inline_part_fits(
            #[trigger] others[i],
        ) by {
            assert(others[i] == parts[i + 1]);
        }
        lemma_inline_first(parts);
        let later = inline_events(others) + tail;
        let all = inline_events(parts) + tail;
        assert(all =~= inline_part_events(parts[0]) + later);
        match parts[0] {
            InlinePart::Aside(item) => {
                assert(all.skip(1) =~= later);
                law_inline_string_is_read(others, text, rest);
                assert(inline_text(parts) =~= inline_text(others));
            },
            InlinePart::Text(attributes, items) => {
                let none = Seq::<char>::empty();
                assert(all.skip(1) =~= items + (seq![end("t")] + later));
                law_text_is_read("t", items, none, later);
                assert(none + joined_text(items) =~= joined_text(items));
                law_inline_string_is_read(others, text + joined_text(items), rest);
                assert(text + joined_text(items) + inline_text(others) =~= text + inline_text(
                    parts,
                ));
            },
        }
    }
}

/// Whether a piece of an entry of the shared strings is one: a `t` element, or an event
/// beside the texts, such as one of rich text.
pub open spec fn entry_part_fits(part: InlinePart) -> bool {
    match part {
        InlinePart::Text(_, items) => inside(items, "t"),
        InlinePart::Aside(item) => goes_on(item) && item != end("si") && item != end("sst") && !(
        item matches XmlItem::Start(tag) && (tag.name == bytes_of("t") || tag.name == bytes_of(
            "si",
        ))),
    }
}

/// An entry of the shared strings is the texts of all its `t` elements, one after the other,
/// as rich text has them; it comes behind the entries before it. It is refused exactly where
/// all together exceed what 32-bit offsets reach.
pub proof fn law_entry_is_parsed(
    texts: Seq<Seq<char>>,
    attributes: Seq<AttributeItem>,
    parts: Seq<InlinePart>,
    rest: Seq<XmlItem>,
)
    requires
        forall|i: int| 0 <= i < parts.len() ==> entry_part_fits(#[trigger] parts[i]),
    ensures
        ({
            let events = seq![start("si", attributes)] + (inline_events(parts) + (seq![end("si")]
                + rest));
            let read = strings_of(events, StringsState { texts, ..no_strings() });
            if total_bytes(encoded(texts)) + encode_utf8(inline_text(parts)).len() <= u32::MAX {
                read == strings_of(
                    rest,
                    StringsState { texts: texts.push(inline_text(parts)), ..no_strings() },
                )
            } else {
                read == Err::<Seq<Seq<char>>, Failure>(too_long())
            }
        }),
{
    lemma_string_names();
    let state = StringsState { texts, ..no_strings() };
    let opened = StringsState { in_si: true, ..state };
    let closing = seq![end("si")] + rest;
    let tail = inline_events(parts) + closing;
    lemma_string_event(state, start("si", attributes), tail, opened);
    lemma_entry_parts(opened, parts, closing);
    let none = Seq::<char>::empty();
    assert(none + inline_text(parts) =~= inline_text(parts));
    assert(closing.skip(1) =~= rest);
}

proof fn lemma_string_names()
    ensures
        bytes_of("si") != bytes_of("t"),
{
    reveal_strlit("si");
    reveal_strlit("t");
    is_ascii_chars_encode_utf8("si"@);
    is_ascii_chars_encode_utf8("t"@);
}

proof fn lemma_string_event(
    state: StringsState,
    item: XmlItem,
    rest: Seq<XmlItem>,
    after: StringsState,
)
    requires
        strings_step(state, item) == Ok::<(StringsState, bool), Failure>((after, false)),
    ensures
        strings_of(seq![item] + rest, state) == strings_of(rest, after),
{
    assert((seq![item] + rest).skip(1) =~= rest);
}

proof fn lemma_entry_parts(state: StringsState, parts: Seq<InlinePart>, rest: Seq<XmlItem>)
    requires
        forall|i: int| 0 <= i < parts.len() ==> entry_part_fits(#[trigger] parts[i]),
        state.in_si,
        !state.in_t,
    ensures
        strings_of(inline_events(parts) + rest, state) == strings_of(
            rest,
            StringsState { current: state.current + inline_text(parts), ..state },
        ),
    decreases parts.len(),
{
    lemma_string_names();
    if parts.len() == 0 {
        assert(inline_events(parts) + rest =~= rest);
        assert(state.current + inline_text(parts) =~= state.current);
    } else {
        let others = parts.skip(1);
        assert(entry_part_fits(parts[0]));
        assert forall|i: int| 0 <= i < others.len() implies entry_part_fits(
            #[trigger] others[i],
        ) by {
            assert(others[i] == parts[i + 1]);
        }
        lemma_inline_first(parts);
        let later = inline_events(others) + rest;
        assert(inline_events(parts) + rest =~= inline_part_events(parts[0]) + later);
        match parts[0] {
            InlinePart::Aside(item) => {
                lemma_string_event(state, item, later, state);
                lemma_entry_parts(state, others, rest);
                assert(inline_text(parts) =~= inline_text(others));
            },
            InlinePart::Text(attributes, items) => {
                let opened = StringsState { in_t: true, ..state };
                let closing = seq![end("t")] + later;
                assert(inline_part_events(parts[0]) + later =~= seq![start("t", attributes)] + (
                items + closing));
                lemma_string_event(state, start("t", attributes), items + closing, opened);
                lemma_entry_text(opened, items, closing);
                let read = StringsState { current: state.current + joined_text(items), ..state };
                lemma_string_event(StringsState { in_t: true, ..read }, end("t"), later, read);
                lemma_entry_parts(read, others, rest);
                assert(read.current + inline_text(others) =~= state.current + inline_text(parts));
            },
        }
    }
}

proof fn lemma_entry_text(state: StringsState, items: Seq<XmlItem>, rest: Seq<XmlItem>)
    requires
        inside(items, "t"),
        state.in_t,
    ensures
        strings_of(items + rest, state) == strings_of(
            rest,
            StringsState { current: state.current + joined_text(items), ..state },
        ),
    decreases items.len(),
{
    if items.len() == 0 {
        assert(items + rest =~= rest);
        assert(state.current + joined_text(items) =~= state.current);
    } else {
        let item = items[0];
        let others = items.skip(1);
        assert(goes_on(items[0]) && items[0] != end("t"));
        assert forall|i: int| 0 <= i < others.len() implies goes_on(#[trigger] others[i])
            && others[i] != end("t") by {
            assert(others[i] == items[i + 1]);
        }
        lemma_joined_first(items);
        let read = StringsState { current: state.current + own_text(item), ..state };
        if own_text(item).len() == 0 {
            assert(state.current + own_text(item) =~= state.current);
        }
        assert(items + rest =~= seq![item] + (others + rest));
        lemma_string_event(state, item, others + rest, read);
        lemma_entry_text(read, others, rest);
        assert(read.current + joined_text(others) =~= state.current + joined_text(items));
    }
}

/// A sheet that states no used range is opened at its data too, with the range of its first
/// cell.
pub proof fn law_sheet_without_range_is_opened(
    styles: StylesItem,
    lead: Seq<XmlItem>,
    data: Seq<AttributeItem>,
    rest: Seq<XmlItem>,
)
    requires
        forall|i: int| 0 <= i < lead.len() ==> before_data(#[trigger] lead[i]),
    ensures
        prelude_run(sheet_start(), styles, lead + (seq![start("sheetData", data)] + rest)) == Ok::<
            (SheetState, Seq<XmlItem>),
            Failure,
        >(
            (
                SheetState {
                    dimensions: ((0, 0), (0, 0)),
                    place: PlaceItem::Sheet,
                    row: 0,
                    col: 0,
                    dates: Map::empty(),
                },
                rest,
            ),
        ),
{
    lemma_names();
    let tail = seq![start("sheetData", data)] + rest;
    lemma_before_data(sheet_start(), styles, lead, tail);
    assert(tail.skip(1) =~= rest);
}

} // verus!
