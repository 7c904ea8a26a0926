//! The lists in the parts of a workbook, as their XML has them, and what reading them gives.

use crate::error::{ErrorKind, Failure};
use crate::metadata::{
    formats_of, formats_step, no_formats, part_path, relationship, rels_of, rels_step,
    sheet_attributes, sheets_of, sheets_step, Entries, FormatsState,
};
use crate::sheet_events::{end, goes_on, last_value, lemma_last_value, start};
use crate::sheet_parser::{cell_attributes, CellAttributes};
use crate::shared_strings::{strings_step, StringsState};
use crate::text::{bytes_of, lossy_text, unsigned_value};
use crate::utils::{
    attribute_value, is_date_letter, last_named, law_attribute_is_found, law_date_codes, states,
};
use crate::xml::{AttributeItem, TagItem, XmlItem};
use vstd::prelude::*;
use vstd::utf8::*;

verus! {

/// Whether an event is a tag, a start tag or an empty one, with a name and attributes.
pub open spec fn is_tag(item: XmlItem, name: &str, attributes: Seq<AttributeItem>) -> bool {
    let tag = TagItem { name: bytes_of(name), attributes };
    item == XmlItem::Start(tag) || item == XmlItem::Empty(tag)
}

/// Whether an event is a tag, a start tag or an empty one, with a name.
pub open spec fn is_tag_named(item: XmlItem, name: &str) -> bool {
    match item {
        XmlItem::Start(tag) => tag.name == bytes_of(name),
        XmlItem::Empty(tag) => tag.name == bytes_of(name),
        _ => false,
    }
}

/// A target that starts with a slash counts from the root of the archive, any other from
/// `xl`.
pub proof fn law_part_paths(path: Seq<char>)
    ensures
        part_path(seq!['/'] + path) == path,
        path.len() == 0 || path[0] != '/' ==> part_path(path) == seq!['x', 'l', '/'] + path,
{
    reveal_strlit("xl/");
    assert((seq!['/'] + path).skip(1) =~= path);
    assert("xl/"@ =~= seq!['x', 'l', '/']);
}

/// Whether an event lists a relationship, given by its identifier and its target, or, where
/// none is given, has no say in the list.
pub open spec fn lists_relationship(item: XmlItem, entry: Option<(Seq<u8>, Seq<u8>)>) -> bool {
    match entry {
        Some((id, target)) => exists|attributes: Seq<AttributeItem>| #[trigger]
            is_tag(item, "Relationship", attributes) && states(
                attributes,
                bytes_of("Id"),
                Some(id),
            ) && states(attributes, bytes_of("Target"), Some(target)),
        None => goes_on(item) && item != end("Relationships") && !is_tag_named(
            item,
            "Relationship",
        ),
    }
}

/// The relationships of a list: the identifier of each that has one, and the path that its
/// target names.
pub open spec fn listed_relationships(entries: Seq<Option<(Seq<u8>, Seq<u8>)>>) -> Entries
    decreases entries.len(),
{
    if entries.len() == 0 {
        Seq::empty()
    } else {
        let before = listed_relationships(entries.drop_last());
        match entries.last() {
            Some((id, target)) => if lossy_text(id).len() > 0 {
                before.push((lossy_text(id), part_path(lossy_text(target))))
            } else {
                before
            },
            None => before,
        }
    }
}

proof fn lemma_names()
    ensures
        bytes_of("Id") != bytes_of("Target"),
        bytes_of("name") != bytes_of("id"),
        bytes_of("numFmts") != bytes_of("numFmt"),
        bytes_of("numFmts") != bytes_of("cellXfs"),
        bytes_of("numFmts") != bytes_of("xf"),
        bytes_of("numFmt") != bytes_of("cellXfs"),
        bytes_of("numFmt") != bytes_of("xf"),
        bytes_of("cellXfs") != bytes_of("xf"),
        bytes_of("numFmts") != bytes_of("styleSheet"),
        bytes_of("cellXfs") != bytes_of("styleSheet"),
        bytes_of("numFmtId") != bytes_of("formatCode"),
{
    reveal_strlit("Id");
    reveal_strlit("Target");
    reveal_strlit("name");
    reveal_strlit("id");
    reveal_strlit("numFmts");
    reveal_strlit("numFmt");
    reveal_strlit("cellXfs");
    reveal_strlit("xf");
    reveal_strlit("styleSheet");
    reveal_strlit("numFmtId");
    reveal_strlit("formatCode");
    is_ascii_chars_encode_utf8("Id"@);
    is_ascii_chars_encode_utf8("Target"@);
    is_ascii_chars_encode_utf8("name"@);
    is_ascii_chars_encode_utf8("id"@);
    is_ascii_chars_encode_utf8("numFmts"@);
    is_ascii_chars_encode_utf8("numFmt"@);
    is_ascii_chars_encode_utf8("cellXfs"@);
    is_ascii_chars_encode_utf8("xf"@);
    is_ascii_chars_encode_utf8("styleSheet"@);
    is_ascii_chars_encode_utf8("numFmtId"@);
    is_ascii_chars_encode_utf8("formatCode"@);
    assert(bytes_of("numFmts")[0] == 110 && bytes_of("cellXfs")[0] == 99);
}

proof fn lemma_relationship(attributes: Seq<AttributeItem>, id: Seq<char>, target: Seq<char>)
    requires
        forall|i: int| 0 <= i < attributes.len() ==> (#[trigger] attributes[i]) is Pair,
    ensures
        relationship(attributes, id, target) == Ok::<(Seq<char>, Seq<char>), Failure>(
            (
                match last_value(attributes, bytes_of("Id")) {
                    Some(v) => lossy_text(v),
                    None => id,
                },
                match last_value(attributes, bytes_of("Target")) {
                    Some(v) => lossy_text(v),
                    None => target,
                },
            ),
        ),
    decreases attributes.len(),
{
    lemma_names();
    if attributes.len() > 0 {
        let rest = attributes.skip(1);
        assert(attributes[0] is Pair);
        let key = attributes[0]->key;
        let value = lossy_text(attributes[0]->value);
        assert forall|i: int| 0 <= i < rest.len() implies (#[trigger] rest[i]) is Pair by {
            assert(rest[i] == attributes[i + 1]);
        }
        if key == bytes_of("Id") {
            lemma_relationship(rest, value, target);
        } else if key == bytes_of("Target") {
            lemma_relationship(rest, id, value);
        } else {
            lemma_relationship(rest, id, target);
        }
    }
}

/// The relationships of a workbook are read in the order in which they are listed, each
/// with the path that its target names; one without an identifier is dropped, and what else
/// stands in the list has no say. The end of the list or of the document ends it.
pub proof fn law_relationships_are_listed(
    items: Seq<XmlItem>,
    entries: Seq<Option<(Seq<u8>, Seq<u8>)>>,
    last: XmlItem,
    rest: Seq<XmlItem>,
)
    requires
        items.len() == entries.len(),
        forall|i: int|
            0 <= i < items.len() ==> lists_relationship(#[trigger] items[i], entries[i]),
        last == end("Relationships") || last == XmlItem::Eof,
    ensures
        rels_of(items + (seq![last] + rest), Seq::empty()) == Ok::<Entries, Failure>(
            listed_relationships(entries),
        ),
{
    let tail = seq![last] + rest;
    lemma_relationships(items, entries, tail);
    assert(tail[0] == last);
}

proof fn lemma_relationships(
    items: Seq<XmlItem>,
    entries: Seq<Option<(Seq<u8>, Seq<u8>)>>,
    rest: Seq<XmlItem>,
)
    requires
        items.len() == entries.len(),
        forall|i: int|
            0 <= i < items.len() ==> lists_relationship(#[trigger] items[i], entries[i]),
    ensures
        rels_of(items + rest, Seq::empty()) == rels_of(rest, listed_relationships(entries)),
    decreases items.len(),
{
    if items.len() == 0 {
        assert(items + rest =~= rest);
        assert(listed_relationships(entries) =~= Seq::empty());
    } else {
        let front = items.drop_last();
        let fewer = entries.drop_last();
        let item = items.last();
        let entry = entries.last();
        let n = items.len() - 1;
        assert(lists_relationship(items[n], entries[n]));
        assert forall|i: int| 0 <= i < front.len() implies lists_relationship(
            #[trigger] front[i],
            fewer[i],
        ) by {
            assert(front[i] == items[i] && fewer[i] == entries[i]);
        }
        lemma_relationships(front, fewer, seq![item] + rest);
        assert(items + rest =~= front + (seq![item] + rest));
        let before = listed_relationships(fewer);
        assert((seq![item] + rest).skip(1) =~= rest);
        if let Some((id, target)) = entry {
            let attributes = choose|attributes: Seq<AttributeItem>| #[trigger]
                is_tag(item, "Relationship", attributes) && states(
                    attributes,
                    bytes_of("Id"),
                    Some(id),
                ) && states(attributes, bytes_of("Target"), Some(target));
            lemma_relationship(attributes, Seq::empty(), Seq::empty());
            lemma_last_value(attributes, bytes_of("Id"), Some(id));
            lemma_last_value(attributes, bytes_of("Target"), Some(target));
        }
        assert(rels_step(before, item) == Ok::<(Entries, bool), Failure>(
            (listed_relationships(entries), false),
        ));
        assert(rels_of(seq![item] + rest, before) == rels_of(rest, listed_relationships(entries)));
    }
}

/// Whether attributes are all well-formed, and state a value for a key without its prefix.
pub open spec fn states_local(
    attributes: Seq<AttributeItem>,
    local: Seq<u8>,
    value: Seq<u8>,
) -> bool {
    &&& forall|i: int| 0 <= i < attributes.len() ==> (#[trigger] attributes[i]) is Pair
    &&& exists|i: int| 0 <= i < attributes.len() && (#[trigger] attributes[i])->local == local
    &&& forall|i: int|
        0 <= i < attributes.len() && (#[trigger] attributes[i])->local == local
            ==> attributes[i]->value == value
}

/// Whether an event lists a sheet, given by its name and its relationship, or, where none
/// is given, has no say in the list.
pub open spec fn lists_sheet(item: XmlItem, entry: Option<(Seq<u8>, Seq<u8>)>) -> bool {
    match entry {
        Some((name, id)) => valid_utf8(name) && exists|attributes: Seq<AttributeItem>| #[trigger]
            is_tag(item, "sheet", attributes) && states_local(attributes, bytes_of("name"), name)
                && states_local(attributes, bytes_of("id"), id),
        None => goes_on(item) && item != end("workbook") && !is_tag_named(item, "sheet"),
    }
}

/// The sheets of a list: the name of each whose relationship is known, and the path that
/// the relationship, the last one with that identifier, names.
pub open spec fn listed_sheets(entries: Seq<Option<(Seq<u8>, Seq<u8>)>>, rels: Entries) -> Entries
    decreases entries.len(),
{
    if entries.len() == 0 {
        Seq::empty()
    } else {
        let before = listed_sheets(entries.drop_last(), rels);
        match entries.last() {
            Some((name, id)) => match last_named(rels, lossy_text(id)) {
                Some(i) => before.push((decode_utf8(name), rels[i].1)),
                None => before,
            },
            None => before,
        }
    }
}

/// The value that the last attribute with a key without its prefix states.
spec fn last_local(attributes: Seq<AttributeItem>, local: Seq<u8>) -> Option<Seq<u8>>
    decreases attributes.len(),
{
    if attributes.len() == 0 {
        None
    } else {
        match last_local(attributes.skip(1), local) {
            Some(v) => Some(v),
            None => if attributes[0]->local == local {
                Some(attributes[0]->value)
            } else {
                None
            },
        }
    }
}

proof fn lemma_last_local(attributes: Seq<AttributeItem>, local: Seq<u8>, value: Seq<u8>)
    requires
        forall|i: int|
            0 <= i < attributes.len() && (#[trigger] attributes[i])->local == local
                ==> attributes[i]->value == value,
    ensures
        last_local(attributes, local) == (if exists|i: int|
            0 <= i < attributes.len() && (#[trigger] attributes[i])->local == local {
            Some(value)
        } else {
            None
        }),
    decreases attributes.len(),
{
    if attributes.len() > 0 {
        let rest = attributes.skip(1);
        assert forall|i: int| 0 <= i < rest.len() && (#[trigger] rest[i])->local == local implies
            rest[i]->value == value by {
            assert(rest[i] == attributes[i + 1]);
        }
        lemma_last_local(rest, local, value);
        if exists|i: int| 0 <= i < attributes.len() && (#[trigger] attributes[i])->local == local {
            let i = choose|i: int|
                0 <= i < attributes.len() && (#[trigger] attributes[i])->local == local;
            if i > 0 {
                assert(rest[i - 1] == attributes[i]);
            }
        }
        if exists|i: int| 0 <= i < rest.len() && (#[trigger] rest[i])->local == local {
            let i = choose|i: int| 0 <= i < rest.len() && (#[trigger] rest[i])->local == local;
            assert(attributes[i + 1] == rest[i]);
        }
    }
}

proof fn lemma_sheet_attributes(attributes: Seq<AttributeItem>, name: Seq<char>, id: Seq<char>)
    requires
        forall|i: int| 0 <= i < attributes.len() ==> (#[trigger] attributes[i]) is Pair,
        forall|i: int|
            0 <= i < attributes.len() && (#[trigger] attributes[i])->local == bytes_of("name")
                ==> valid_utf8(attributes[i]->value),
    ensures
        sheet_attributes(attributes, name, id) == Ok::<(Seq<char>, Seq<char>), Failure>(
            (
                match last_local(attributes, bytes_of("name")) {
                    Some(v) => decode_utf8(v),
                    None => name,
                },
                match last_local(attributes, bytes_of("id")) {
                    Some(v) => lossy_text(v),
                    None => id,
                },
            ),
        ),
    decreases attributes.len(),
{
    lemma_names();
    if attributes.len() > 0 {
        let rest = attributes.skip(1);
        assert(attributes[0] is Pair);
        let local = attributes[0]->local;
        let value = attributes[0]->value;
        assert forall|i: int| 0 <= i < rest.len() implies (#[trigger] rest[i]) is Pair && (
        rest[i]->local == bytes_of("name") ==> valid_utf8(rest[i]->value)) by {
            assert(rest[i] == attributes[i + 1]);
        }
        if local == bytes_of("name") {
            lemma_sheet_attributes(rest, decode_utf8(value), id);
        } else if local == bytes_of("id") {
            lemma_sheet_attributes(rest, name, lossy_text(value));
        } else {
            lemma_sheet_attributes(rest, name, id);
        }
    }
}

/// The sheets of a workbook are read in the order in which they are listed, each with the
/// path of the part that its relationship names; one whose relationship is unknown is
/// dropped, and what else stands in the list has no say.
pub proof fn law_sheets_are_listed(
    items: Seq<XmlItem>,
    entries: Seq<Option<(Seq<u8>, Seq<u8>)>>,
    rels: Entries,
    last: XmlItem,
    rest: Seq<XmlItem>,
)
    requires
        items.len() == entries.len(),
        forall|i: int| 0 <= i < items.len() ==> lists_sheet(#[trigger] items[i], entries[i]),
        last == end("workbook") || last == XmlItem::Eof,
    ensures
        sheets_of(items + (seq![last] + rest), rels, Seq::empty()) == Ok::<Entries, Failure>(
            listed_sheets(entries, rels),
        ),
{
    let tail = seq![last] + rest;
    lemma_sheets(items, entries, rels, tail);
    assert(tail[0] == last);
}

proof fn lemma_sheets(
    items: Seq<XmlItem>,
    entries: Seq<Option<(Seq<u8>, Seq<u8>)>>,
    rels: Entries,
    rest: Seq<XmlItem>,
)
    requires
        items.len() == entries.len(),
        forall|i: int| 0 <= i < items.len() ==> lists_sheet(#[trigger] items[i], entries[i]),
    ensures
        sheets_of(items + rest, rels, Seq::empty()) == sheets_of(
            rest,
            rels,
            listed_sheets(entries, rels),
        ),
    decreases items.len(),
{
    if items.len() == 0 {
        assert(items + rest =~= rest);
        assert(listed_sheets(entries, rels) =~= Seq::empty());
    } else {
        let front = items.drop_last();
        let fewer = entries.drop_last();
        let item = items.last();
        let entry = entries.last();
        let n = items.len() - 1;
        assert(lists_sheet(items[n], entries[n]));
        assert forall|i: int| 0 <= i < front.len() implies lists_sheet(
            #[trigger] front[i],
            fewer[i],
        ) by {
            assert(front[i] == items[i] && fewer[i] == entries[i]);
        }
        lemma_sheets(front, fewer, rels, seq![item] + rest);
        assert(items + rest =~= front + (seq![item] + rest));
        let before = listed_sheets(fewer, rels);
        assert((seq![item] + rest).skip(1) =~= rest);
        if let Some((name, id)) = entry {
            let attributes = choose|attributes: Seq<AttributeItem>| #[trigger]
                is_tag(item, "sheet", attributes) && states_local(
                    attributes,
                    bytes_of("name"),
                    name,
                ) && states_local(attributes, bytes_of("id"), id);
            lemma_sheet_attributes(attributes, Seq::empty(), Seq::empty());
            lemma_last_local(attributes, bytes_of("name"), name);
            lemma_last_local(attributes, bytes_of("id"), id);
        }
        assert(sheets_step(before, rels, item) == Ok::<(Entries, bool), Failure>(
            (listed_sheets(entries, rels), false),
        ));
        assert(sheets_of(seq![item] + rest, rels, before) == sheets_of(
            rest,
            rels,
            listed_sheets(entries, rels),
        ));
    }
}

/// The number that a list of number formats or styles states.
pub open spec fn stated_number(value: Option<Seq<u8>>) -> Option<int> {
    match value {
        Some(digits) => unsigned_value(encode_utf8(lossy_text(digits)), u32::MAX as int),
        None => None,
    }
}

/// Whether a custom number format shows a date or a time: some character of its code
/// stands for a part of one, and none for a digit.
pub open spec fn code_shows_date(code: Seq<u8>) -> bool {
    let text = lossy_text(code);
    &&& exists|i: int| 0 <= i < text.len() && is_date_letter(#[trigger] text[i])
    &&& forall|i: int| 0 <= i < text.len() ==> #[trigger] text[i] != '0' && text[i] != '#'
}

/// Whether an event in the styles of a workbook opens or closes none of their lists.
pub open spec fn in_no_list(item: XmlItem) -> bool {
    &&& goes_on(item)
    &&& item != end("numFmts")
    &&& item != end("cellXfs")
    &&& item != end("styleSheet")
    &&& !(item matches XmlItem::Start(tag) && (tag.name == bytes_of("numFmts") || tag.name
        == bytes_of("cellXfs")))
}

/// Whether an event lists a custom number format, given by its number and its code, or,
/// where none is given, has no say in the list.
pub open spec fn lists_format(item: XmlItem, entry: Option<(Seq<u8>, Seq<u8>)>) -> bool {
    match entry {
        Some((id, code)) => exists|attributes: Seq<AttributeItem>| #[trigger]
            is_tag(item, "numFmt", attributes) && states(
                attributes,
                bytes_of("numFmtId"),
                Some(id),
            ) && states(attributes, bytes_of("formatCode"), Some(code)),
        None => in_no_list(item) && !is_tag_named(item, "numFmt"),
    }
}

/// Whether an event lists a cell style, given by the number of its format where it states
/// one, or, where none is given, has no say in the list.
pub open spec fn lists_style(item: XmlItem, entry: Option<Option<Seq<u8>>>) -> bool {
    match entry {
        Some(id) => exists|attributes: Seq<AttributeItem>| #[trigger]
            is_tag(item, "xf", attributes) && states(attributes, bytes_of("numFmtId"), id),
        None => in_no_list(item) && !is_tag_named(item, "xf"),
    }
}

/// The number formats of the styles of a list, 0 for a style that states none.
pub open spec fn listed_styles(entries: Seq<Option<Option<Seq<u8>>>>) -> Seq<u32>
    decreases entries.len(),
{
    if entries.len() == 0 {
        Seq::empty()
    } else {
        let before = listed_styles(entries.drop_last());
        match entries.last() {
            Some(id) => before.push(
                match stated_number(id) {
                    Some(n) => n as u32,
                    None => 0,
                },
            ),
            None => before,
        }
    }
}

/// Whether a custom number format is listed, with a code that shows a date or a time.
pub open spec fn listed_as_date(entries: Seq<Option<(Seq<u8>, Seq<u8>)>>, n: u32) -> bool {
    exists|i: int| 0 <= i < entries.len() && #[trigger] is_date_entry(entries[i], n)
}

/// Whether an entry lists a custom number format with a number, and with a code that shows
/// a date or a time.
pub open spec fn is_date_entry(entry: Option<(Seq<u8>, Seq<u8>)>, n: u32) -> bool {
    entry matches Some((id, code)) && stated_number(Some(id)) == Some(n as int) && code_shows_date(
        code,
    )
}

proof fn lemma_step(state: FormatsState, item: XmlItem, rest: Seq<XmlItem>, after: FormatsState)
    requires
        formats_step(state, item) == Ok::<(FormatsState, bool), Failure>((after, false)),
    ensures
        formats_of(seq![item] + rest, state) == formats_of(rest, after),
{
    assert((seq![item] + rest).skip(1) =~= rest);
}

/// Outside its lists nothing in the styles has a say, not even a style of another list.
proof fn lemma_no_list(state: FormatsState, items: Seq<XmlItem>, rest: Seq<XmlItem>)
    requires
        !state.in_cell_xfs,
        !state.in_num_fmts,
        forall|i: int| 0 <= i < items.len() ==> in_no_list(#[trigger] items[i]),
    ensures
        formats_of(items + rest, state) == formats_of(rest, state),
    decreases items.len(),
{
    if items.len() == 0 {
        assert(items + rest =~= rest);
    } else {
        let others = items.skip(1);
        assert(in_no_list(items[0]));
        assert(items + rest =~= seq![items[0]] + (others + rest));
        assert forall|i: int| 0 <= i < others.len() implies in_no_list(#[trigger] others[i]) by {
            assert(others[i] == items[i + 1]);
        }
        lemma_step(state, items[0], others + rest, state);
        lemma_no_list(state, others, rest);
    }
}

proof fn lemma_formats(
    items: Seq<XmlItem>,
    entries: Seq<Option<(Seq<u8>, Seq<u8>)>>,
    rest: Seq<XmlItem>,
) -> (custom: Set<u32>)
    requires
        items.len() == entries.len(),
        forall|i: int| 0 <= i < items.len() ==> lists_format(#[trigger] items[i], entries[i]),
    ensures
        formats_of(
            items + rest,
            FormatsState { in_num_fmts: true, ..no_formats() },
        ) == formats_of(rest, FormatsState { in_num_fmts: true, custom, ..no_formats() }),
        forall|n: u32| #[trigger] custom.contains(n) <==> listed_as_date(entries, n),
    decreases items.len(),
{
    lemma_names();
    if items.len() == 0 {
        assert(items + rest =~= rest);
        Set::empty()
    } else {
        let front = items.drop_last();
        let fewer = entries.drop_last();
        let item = items.last();
        let entry = entries.last();
        let k = items.len() - 1;
        assert(lists_format(items[k], entries[k]));
        assert forall|i: int| 0 <= i < front.len() implies lists_format(
            #[trigger] front[i],
            fewer[i],
        ) by {
            assert(front[i] == items[i] && fewer[i] == entries[i]);
        }
        let before = lemma_formats(front, fewer, seq![item] + rest);
        assert(items + rest =~= front + (seq![item] + rest));
        let state = FormatsState { in_num_fmts: true, custom: before, ..no_formats() };
        let custom = match entry {
            Some((id, code)) => match stated_number(Some(id)) {
                Some(n) => if code_shows_date(code) {
                    before.insert(n as u32)
                } else {
                    before
                },
                None => before,
            },
            None => before,
        };
        if let Some((id, code)) = entry {
            let attributes = choose|attributes: Seq<AttributeItem>| #[trigger]
                is_tag(item, "numFmt", attributes) && states(
                    attributes,
                    bytes_of("numFmtId"),
                    Some(id),
                ) && states(attributes, bytes_of("formatCode"), Some(code));
            law_attribute_is_found(attributes, bytes_of("numFmtId"), Some(id));
            law_attribute_is_found(attributes, bytes_of("formatCode"), Some(code));
            law_date_codes(lossy_text(code));
            if let Some(n) = stated_number(Some(id)) {
                crate::text::law_unsigned_texts(
                    encode_utf8(lossy_text(id)),
                    n,
                    u32::MAX as int,
                );
            }
        }
        lemma_step(
            state,
            item,
            rest,
            FormatsState { in_num_fmts: true, custom, ..no_formats() },
        );
        assert forall|n: u32| #[trigger] custom.contains(n) <==> listed_as_date(entries, n) by {
            if listed_as_date(fewer, n) {
                let i = choose|i: int| 0 <= i < fewer.len() && #[trigger] is_date_entry(fewer[i], n);
                assert(is_date_entry(entries[i], n));
            }
            if is_date_entry(entry, n) {
                assert(is_date_entry(entries[k], n));
            }
            if listed_as_date(entries, n) {
                let i = choose|i: int|
                    0 <= i < entries.len() && #[trigger] is_date_entry(entries[i], n);
                if i < k {
                    assert(is_date_entry(fewer[i], n));
                }
            }
        }
        custom
    }
}

proof fn lemma_styles(
    items: Seq<XmlItem>,
    entries: Seq<Option<Option<Seq<u8>>>>,
    custom: Set<u32>,
    rest: Seq<XmlItem>,
)
    requires
        items.len() == entries.len(),
        forall|i: int| 0 <= i < items.len() ==> lists_style(#[trigger] items[i], entries[i]),
    ensures
        formats_of(
            items + rest,
            FormatsState { in_cell_xfs: true, custom, ..no_formats() },
        ) == formats_of(
            rest,
            FormatsState {
                in_cell_xfs: true,
                custom,
                cell_xfs: listed_styles(entries),
                ..no_formats()
            },
        ),
    decreases items.len(),
{
    lemma_names();
    if items.len() == 0 {
        assert(items + rest =~= rest);
        assert(listed_styles(entries) =~= Seq::empty());
    } else {
        let front = items.drop_last();
        let fewer = entries.drop_last();
        let item = items.last();
        let entry = entries.last();
        let k = items.len() - 1;
        assert(lists_style(items[k], entries[k]));
        assert forall|i: int| 0 <= i < front.len() implies lists_style(
            #[trigger] front[i],
            fewer[i],
        ) by {
            assert(front[i] == items[i] && fewer[i] == entries[i]);
        }
        lemma_styles(front, fewer, custom, seq![item] + rest);
        assert(items + rest =~= front + (seq![item] + rest));
        let state = FormatsState {
            in_cell_xfs: true,
            custom,
            cell_xfs: listed_styles(fewer),
            ..no_formats()
        };
        if let Some(id) = entry {
            let attributes = choose|attributes: Seq<AttributeItem>| #[trigger]
                is_tag(item, "xf", attributes) && states(attributes, bytes_of("numFmtId"), id);
            law_attribute_is_found(attributes, bytes_of("numFmtId"), id);
        }
        lemma_step(
            state,
            item,
            rest,
            FormatsState { cell_xfs: listed_styles(entries), ..state },
        );
    }
}

/// The styles of a workbook: the number format of each style in the list of cell styles, in
/// order, and of no other style; and the custom number formats whose codes show a date or a
/// time. What stands outside the two lists has no say.
pub proof fn law_styles_are_listed(
    lead: Seq<XmlItem>,
    formats: Seq<XmlItem>,
    format_entries: Seq<Option<(Seq<u8>, Seq<u8>)>>,
    middle: Seq<XmlItem>,
    styles: Seq<XmlItem>,
    style_entries: Seq<Option<Option<Seq<u8>>>>,
    trail: Seq<XmlItem>,
    attributes: Seq<AttributeItem>,
    rest: Seq<XmlItem>,
)
    requires
        forall|i: int| 0 <= i < lead.len() ==> in_no_list(#[trigger] lead[i]),
        formats.len() == format_entries.len(),
        forall|i: int|
            0 <= i < formats.len() ==> lists_format(#[trigger] formats[i], format_entries[i]),
        forall|i: int| 0 <= i < middle.len() ==> in_no_list(#[trigger] middle[i]),
        styles.len() == style_entries.len(),
        forall|i: int|
            0 <= i < styles.len() ==> lists_style(#[trigger] styles[i], style_entries[i]),
        forall|i: int| 0 <= i < trail.len() ==> in_no_list(#[trigger] trail[i]),
    ensures
        ({
            let items = lead + (seq![start("numFmts", attributes)] + (formats + (seq![end(
                "numFmts",
            )] + (middle + (seq![start("cellXfs", attributes)] + (styles + (seq![end("cellXfs")] + (
            trail + (seq![end("styleSheet")] + rest)))))))));
            &&& formats_of(items, no_formats()) matches Ok(read) && {
                &&& read.cell_xfs == listed_styles(style_entries)
                &&& forall|n: u32|
                    #[trigger] read.custom.contains(n) <==> listed_as_date(format_entries, n)
            }
        }),
{
    lemma_names();
    let tail = seq![end("styleSheet")] + rest;
    let after_styles = seq![end("cellXfs")] + (trail + tail);
    let from_styles = seq![start("cellXfs", attributes)] + (styles + after_styles);
    let after_formats = seq![end("numFmts")] + (middle + from_styles);
    let none = no_formats();
    lemma_no_list(
        none,
        lead,
        seq![start("numFmts", attributes)] + (formats + after_formats),
    );
    let in_formats = FormatsState { in_num_fmts: true, ..none };
    lemma_step(none, start("numFmts", attributes), formats + after_formats, in_formats);
    let custom = lemma_formats(formats, format_entries, after_formats);
    let between = FormatsState { custom, ..none };
    lemma_step(
        FormatsState { in_num_fmts: true, custom, ..none },
        end("numFmts"),
        middle + from_styles,
        between,
    );
    lemma_no_list(between, middle, from_styles);
    let in_styles = FormatsState { in_cell_xfs: true, custom, ..none };
    lemma_step(between, start("cellXfs", attributes), styles + after_styles, in_styles);
    lemma_styles(styles, style_entries, custom, after_styles);
    let read = FormatsState { custom, cell_xfs: listed_styles(style_entries), ..none };
    lemma_step(
        FormatsState { in_cell_xfs: true, ..read },
        end("cellXfs"),
        trail + tail,
        read,
    );
    lemma_no_list(read, trail, tail);
    assert(tail[0] == end("styleSheet"));
}

/// The last entry with a name is found: it has the name, and none behind it has; where none
/// is found, none has it.
pub proof fn law_last_named(entries: Entries, name: Seq<char>)
    ensures
        match last_named(entries, name) {
            Some(i) => 0 <= i < entries.len() && entries[i].0 == name && forall|j: int|
                i < j < entries.len() ==> (#[trigger] entries[j]).0 != name,
            None => forall|j: int| 0 <= j < entries.len() ==> (#[trigger] entries[j]).0 != name,
        },
    decreases entries.len(),
{
    if entries.len() > 0 {
        let front = entries.drop_last();
        law_last_named(front, name);
        assert forall|j: int| 0 <= j < front.len() implies #[trigger] entries[j] == front[j] by {}
    }
}

/// A malformed attribute is refused, wherever among the attributes of a cell, a relationship
/// or a sheet it stands; and where one attribute is asked for, unless that one is well-formed
/// and stands before it.
pub proof fn law_malformed_attributes_are_refused(
    attributes: Seq<AttributeItem>,
    at: int,
    key: Seq<u8>,
    read: CellAttributes,
    a: Seq<char>,
    b: Seq<char>,
)
    requires
        0 <= at < attributes.len(),
        attributes[at] is Bad,
    ensures
        cell_attributes(attributes, read) is Err,
        relationship(attributes, a, b) is Err,
        sheet_attributes(attributes, a, b) is Err,
        (forall|i: int|
            0 <= i < at ==> !((#[trigger] attributes[i]) matches AttributeItem::Pair {
                key: k,
                local: _,
                value: _,
            } && k == key)) ==> attribute_value(attributes, key) is Err,
    decreases attributes.len(),
{
    if at > 0 {
        let rest = attributes.skip(1);
        assert(rest[at - 1] is Bad);
        if let AttributeItem::Pair { key: k, local, value } = attributes[0] {
            let next = if k == bytes_of("r") {
                CellAttributes { position: Some(crate::utils::a1_position(value)), ..read }
            } else if k == bytes_of("t") {
                CellAttributes { kind: crate::sheet_parser::type_of(value), ..read }
            } else if k == bytes_of("s") {
                CellAttributes { style: unsigned_value(value, usize::MAX as int), ..read }
            } else {
                read
            };
            law_malformed_attributes_are_refused(rest, at - 1, key, next, a, b);
            let text = lossy_text(value);
            law_malformed_attributes_are_refused(rest, at - 1, key, next, text, b);
            law_malformed_attributes_are_refused(rest, at - 1, key, next, a, text);
            law_malformed_attributes_are_refused(rest, at - 1, key, next, decode_utf8(value), b);
            if forall|i: int|
                0 <= i < at ==> !((#[trigger] attributes[i]) matches AttributeItem::Pair {
                    key: k,
                    local: _,
                    value: _,
                } && k == key) {
                assert(!(attributes[0] matches AttributeItem::Pair { key: k, local: _, value: _ }
                    && k == key));
                assert forall|i: int| 0 <= i < at - 1 implies !((
                #[trigger] rest[i]) matches AttributeItem::Pair { key: k, local: _, value: _ } && k
                    == key) by {
                    assert(rest[i] == attributes[i + 1]);
                }
            }
        }
    }
}

/// Malformed XML is refused in every list of a workbook, and so are shared strings that end in
/// a text; elsewhere a list may end with its document.
pub proof fn law_malformed_lists_are_refused(
    message: Seq<char>,
    entries: Entries,
    rels: Entries,
    formats: FormatsState,
    strings: StringsState,
)
    ensures
        rels_step(entries, XmlItem::Error(message)) matches Err(e) && e.kind == ErrorKind::Xml,
        sheets_step(entries, rels, XmlItem::Error(message)) matches Err(e) && e.kind
            == ErrorKind::Xml,
        formats_step(formats, XmlItem::Error(message)) matches Err(e) && e.kind == ErrorKind::Xml,
        strings_step(strings, XmlItem::Error(message)) matches Err(e) && e.kind == ErrorKind::Xml,
        rels_step(entries, XmlItem::Eof) == Ok::<(Entries, bool), Failure>((entries, true)),
        sheets_step(entries, rels, XmlItem::Eof) == Ok::<(Entries, bool), Failure>(
            (entries, true),
        ),
        formats_step(formats, XmlItem::Eof) == Ok::<(FormatsState, bool), Failure>(
            (formats, true),
        ),
        strings.in_t ==> (strings_step(strings, XmlItem::Eof) matches Err(e) && e.kind
            == ErrorKind::UnexpectedEof),
        !strings.in_t ==> strings_step(strings, XmlItem::Eof) == Ok::<
            (StringsState, bool),
            Failure,
        >((strings, true)),
{
}

} // verus!
