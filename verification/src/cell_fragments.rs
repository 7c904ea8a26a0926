//! Cells as the bytes of a worksheet have them, and what scanning them gives.

use crate::cell_values::{is_integer, is_text, law_scanned_values};
use crate::error::Failure;
use crate::excel_types::{Cell, Data};
use crate::float::Float;
use crate::plain_xml::without;
use crate::sheet_fast::{
    between, cell_close, cell_ranges, content_close, fast_range, fragment_value, number_wanted,
    opens_cell, parsed_cell, quoted_after, self_closing_cell, tag_close,
};
use crate::simple_list::{lemma_found, lemma_occurrence};
use crate::text::{
    byte_from, bytes_of, decimal, first_from, law_decimal_reads_back, law_integer_texts, lemma_first_from,
    lossy_text, occurs_at, signed_value,
};
use crate::utils::{dimension_of, is_reference, lemma_byte_at, lemma_reference};
use vstd::prelude::*;
use vstd::utf8::*;

verus! {

/// An attribute of a tag: its name and its value.
pub type Named = (Seq<u8>, Seq<u8>);

/// An attribute, after a space and with its value in double quotes.
pub open spec fn attribute_bytes(attribute: Named) -> Seq<u8> {
    seq![32u8] + attribute.0 + seq![61u8, 34] + attribute.1 + seq![34u8]
}

/// Attributes, one after the other.
pub open spec fn attributes_bytes(attributes: Seq<Named>) -> Seq<u8>
    decreases attributes.len(),
{
    if attributes.len() == 0 {
        Seq::empty()
    } else {
        attribute_bytes(attributes[0]) + attributes_bytes(attributes.skip(1))
    }
}

/// The tag of a cell up to its closing bracket.
pub open spec fn cell_tag(attributes: Seq<Named>) -> Seq<u8> {
    seq![60u8, 99] + attributes_bytes(attributes)
}

/// Whether an attribute of a cell is one: its name is made of small letters, and its value
/// holds no quotes, angle brackets, slashes and equals signs.
pub open spec fn attribute_fits(attribute: Named) -> bool {
    let (name, value) = attribute;
    &&& name.len() > 0
    &&& forall|i: int| 0 <= i < name.len() ==> 97 <= #[trigger] name[i] <= 122
    &&& without(value, 34)
    &&& without(value, 60)
    &&& without(value, 62)
    &&& without(value, 47)
    &&& without(value, 61)
}

/// Whether the attributes of a cell are such, and there is one.
pub open spec fn tag_fits(attributes: Seq<Named>) -> bool {
    &&& attributes.len() > 0
    &&& forall|i: int| 0 <= i < attributes.len() ==> attribute_fits(#[trigger] attributes[i])
}

/// Whether attributes state a value for a name of one letter, or none where it is `None`:
/// one of them has that name, the first whose name ends with the letter.
pub open spec fn tag_states(attributes: Seq<Named>, letter: u8, value: Option<Seq<u8>>) -> bool {
    match value {
        Some(v) => exists|k: int|
            0 <= k < attributes.len() && #[trigger] attributes[k] == (seq![letter], v) && forall|
                i: int,
            |
                0 <= i < k ==> (#[trigger] attributes[i]).0.last() != letter,
        None => forall|i: int|
            0 <= i < attributes.len() ==> (#[trigger] attributes[i]).0.last() != letter,
    }
}

/// A cell with content.
pub open spec fn full_cell(tag: Seq<u8>, content: Seq<u8>) -> Seq<u8> {
    tag + seq![62u8] + content + seq![60u8, 47, 99, 62]
}

/// A cell that is an empty-element tag.
pub open spec fn empty_cell(tag: Seq<u8>) -> Seq<u8> {
    tag + seq![47u8, 62]
}

/// The bytes of an attribute.
proof fn lemma_attribute_bytes(attribute: Named)
    requires
        attribute_fits(attribute),
    ensures
        ({
            let bytes = attribute_bytes(attribute);
            let n = attribute.0.len() as int;
            let v = attribute.1.len() as int;
            &&& bytes.len() == n + v + 4
            &&& bytes[0] == 32 && bytes[n] == attribute.0.last() && bytes[n + 1] == 61 && bytes[n
                + 2] == 34 && bytes[n + v + 3] == 34
            &&& bytes.subrange(n + 3, n + v + 3) == attribute.1
            &&& forall|i: int| n + 3 <= i < n + v + 3 ==> #[trigger] bytes[i] != 34
            &&& forall|i: int| 0 <= i < bytes.len() && #[trigger] bytes[i] == 61 ==> i == n + 1
            &&& forall|i: int|
                0 <= i < bytes.len() ==> #[trigger] bytes[i] != 60 && bytes[i] != 62 && bytes[i]
                    != 47
        }),
{
    let (name, value) = attribute;
    let bytes = attribute_bytes(attribute);
    let n = name.len() as int;
    let v = value.len() as int;
    assert forall|i: int| 0 <= i < bytes.len() implies #[trigger] bytes[i] != 60 && bytes[i] != 62
        && bytes[i] != 47 && (bytes[i] == 61 ==> i == n + 1) && (n + 3 <= i < n + v + 3 ==> bytes[i]
        != 34) by {
        if 1 <= i <= n {
            assert(bytes[i] == name[i - 1]);
        } else if n + 3 <= i < n + v + 3 {
            assert(bytes[i] == value[i - n - 3]);
        }
    }
    assert(bytes[n] == name[n - 1]);
    assert(bytes.subrange(n + 3, n + v + 3) =~= value);
}

/// The bytes of attributes: they hold no brackets and no slash.
proof fn lemma_attributes_bytes(attributes: Seq<Named>)
    requires
        forall|i: int| 0 <= i < attributes.len() ==> attribute_fits(#[trigger] attributes[i]),
    ensures
        ({
            let bytes = attributes_bytes(attributes);
            &&& attributes.len() > 0 ==> bytes.len() > 0 && bytes[0] == 32
            &&& forall|i: int|
                0 <= i < bytes.len() ==> #[trigger] bytes[i] != 60 && bytes[i] != 62 && bytes[i]
                    != 47
        }),
    decreases attributes.len(),
{
    if attributes.len() > 0 {
        let others = attributes.skip(1);
        assert(attribute_fits(attributes[0]));
        assert forall|i: int| 0 <= i < others.len() implies attribute_fits(
            #[trigger] others[i],
        ) by {
            assert(others[i] == attributes[i + 1]);
        }
        lemma_attribute_bytes(attributes[0]);
        lemma_attributes_bytes(others);
        let first = attribute_bytes(attributes[0]);
        let bytes = attributes_bytes(attributes);
        assert forall|i: int| 0 <= i < bytes.len() implies #[trigger] bytes[i] != 60 && bytes[i]
            != 62 && bytes[i] != 47 by {
            if i < first.len() {
                assert(bytes[i] == first[i]);
            } else {
                assert(bytes[i] == attributes_bytes(others)[i - first.len()]);
            }
        }
        assert(bytes[0] == first[0]);
    }
}

/// The bytes of a cell's tag: after its start it holds no brackets and no slash.
proof fn lemma_tag_bytes(attributes: Seq<Named>)
    requires
        tag_fits(attributes),
    ensures
        ({
            let tag = cell_tag(attributes);
            &&& tag.len() >= 3
            &&& tag[0] == 60 && tag[1] == 99 && tag[2] == 32
            &&& forall|i: int|
                1 <= i < tag.len() ==> #[trigger] tag[i] != 60 && tag[i] != 62 && tag[i] != 47
        }),
{
    lemma_attributes_bytes(attributes);
    let tag = cell_tag(attributes);
    let bytes = attributes_bytes(attributes);
    assert forall|i: int| 1 <= i < tag.len() implies #[trigger] tag[i] != 60 && tag[i] != 62
        && tag[i] != 47 by {
        if i >= 2 {
            assert(tag[i] == bytes[i - 2]);
        }
    }
    assert(tag[2] == bytes[0]);
}

/// The marks that the scan of a cell looks for.
proof fn lemma_marks()
    ensures
        bytes_of("r=\"") =~= seq![114u8, 61, 34],
        bytes_of("t=\"") =~= seq![116u8, 61, 34],
        bytes_of("<c") =~= seq![60u8, 99],
        bytes_of("<v>") =~= seq![60u8, 118, 62],
        bytes_of("</v>") =~= seq![60u8, 47, 118, 62],
        bytes_of("<t>") =~= seq![60u8, 116, 62],
        bytes_of("</t>") =~= seq![60u8, 47, 116, 62],
{
    reveal_strlit("r=\"");
    reveal_strlit("t=\"");
    reveal_strlit("<c");
    reveal_strlit("<v>");
    reveal_strlit("</v>");
    reveal_strlit("<t>");
    reveal_strlit("</t>");
    is_ascii_chars_encode_utf8("r=\""@);
    is_ascii_chars_encode_utf8("t=\""@);
    is_ascii_chars_encode_utf8("<c"@);
    is_ascii_chars_encode_utf8("<v>"@);
    is_ascii_chars_encode_utf8("</v>"@);
    is_ascii_chars_encode_utf8("<t>"@);
    is_ascii_chars_encode_utf8("</t>"@);
}

/// The value of an attribute with a name of one letter is found behind `at`, where the
/// attributes start, and none is where none has that name.
proof fn lemma_attribute_is_found(
    raw: Seq<u8>,
    at: int,
    attributes: Seq<Named>,
    rest: Seq<u8>,
    letter: u8,
    value: Option<Seq<u8>>,
)
    requires
        0 <= at <= raw.len(),
        raw.skip(at) == attributes_bytes(attributes) + rest,
        forall|i: int| 0 <= i < attributes.len() ==> attribute_fits(#[trigger] attributes[i]),
        tag_states(attributes, letter, value),
        rest.len() > 0,
        rest[0] != 61,
        value is None ==> without(rest, 34),
    ensures
        match first_from(raw, seq![letter, 61u8, 34], at) {
            Some(p) => value matches Some(v) && byte_from(raw, 34, p + 3) < raw.len()
                && raw.subrange(p + 3, byte_from(raw, 34, p + 3)) == v,
            None => value is None,
        },
    decreases attributes.len(),
{
    let mark = seq![letter, 61u8, 34];
    lemma_first_from(raw, mark, at);
    assert(raw.skip(at).len() == raw.len() - at);
    if attributes.len() == 0 {
        assert(raw.skip(at) =~= rest);
        if let Some(p) = first_from(raw, mark, at) {
            lemma_occurrence(raw, mark, p);
            assert(raw[p + 2] == mark[2]);
            assert(raw.skip(at)[p + 2 - at] == raw[p + 2]);
        }
        if let Some(v) = value {
            assert(false);
        }
    } else {
        let attribute = attributes[0];
        let others = attributes.skip(1);
        assert(attribute_fits(attributes[0]));
        lemma_attribute_bytes(attribute);
        assert forall|i: int| 0 <= i < others.len() implies attribute_fits(
            #[trigger] others[i],
        ) by {
            assert(others[i] == attributes[i + 1]);
        }
        let own = attribute_bytes(attribute);
        let n = attribute.0.len() as int;
        let v = attribute.1.len() as int;
        let next = at + own.len();
        assert(raw.skip(at) =~= own + (attributes_bytes(others) + rest));
        assert(raw.skip(next) =~= attributes_bytes(others) + rest) by {
            assert(raw.skip(at).skip(own.len() as int) =~= raw.skip(next));
            assert((own + (attributes_bytes(others) + rest)).skip(own.len() as int)
                =~= attributes_bytes(others) + rest);
        }
        assert forall|i: int| 0 <= i < own.len() implies raw[at + i] == #[trigger] own[i] by {
            assert(raw.skip(at)[i] == raw[at + i]);
        }
        assert(raw[next] != 61) by {
            lemma_attributes_bytes(others);
            assert(raw.skip(next)[0] == raw[next]);
            if others.len() > 0 {
                assert((attributes_bytes(others) + rest)[0] == attributes_bytes(others)[0]);
            } else {
                assert(attributes_bytes(others) + rest =~= rest);
            }
        }
        // An equals sign stands behind the name only.
        assert forall|j: int| at <= j < next && #[trigger] occurs_at(raw, mark, j) implies j == at + n
            && attribute.0.last() == letter by {
            lemma_occurrence(raw, mark, j);
            assert(raw[j + 0] == mark[0] && raw[j + 1] == mark[1]);
            if j + 1 < next {
                assert(own[j + 1 - at] == 61);
                assert(raw[at + n] == own[n]);
            }
        }
        if attribute.0.last() == letter {
            assert(occurs_at(raw, mark, at + n)) by {
                assert(raw[at + n] == own[n] && raw[at + (n + 1)] == own[n + 1] && raw[at + (n + 2)]
                    == own[n + 2]);
                assert(raw.subrange(at + n, at + n + 3) =~= mark);
            }
            lemma_found(raw, mark, at, at + n);
            assert forall|i: int| at + n + 3 <= i < at + n + v + 3 implies #[trigger] raw[i]
                != 34 by {
                assert(raw[at + (i - at)] == own[i - at]);
            }
            assert(raw[at + (n + v + 3)] == own[n + v + 3]);
            lemma_byte_at(raw, 34, at + n + 3, at + n + v + 3);
            assert(raw.subrange(at + n + 3, at + n + v + 3) =~= attribute.1) by {
                assert forall|i: int| 0 <= i < v implies raw[at + n + 3 + i] == attribute.1[i] by {
                    assert(raw[at + (n + 3 + i)] == own[n + 3 + i]);
                    assert(own.subrange(n + 3, n + v + 3)[i] == own[n + 3 + i]);
                }
            }
            if let Some(wanted) = value {
                let k = choose|k: int|
                    0 <= k < attributes.len() && #[trigger] attributes[k] == (seq![letter], wanted)
                        && forall|i: int,| 0 <= i < k ==> (#[trigger] attributes[i]).0.last()
                            != letter;
                assert(k == 0);
            }
        } else {
            lemma_first_from(raw, mark, next);
            assert(first_from(raw, mark, at) == first_from(raw, mark, next));
            assert(tag_states(others, letter, value)) by {
                if let Some(wanted) = value {
                    let k = choose|k: int|
                        0 <= k < attributes.len() && #[trigger] attributes[k] == (
                            seq![letter],
                            wanted,
                        ) && forall|i: int,| 0 <= i < k ==> (#[trigger] attributes[i]).0.last()
                            != letter;
                    assert(k > 0) by {
                        assert(seq![letter].last() == letter);
                    }
                    assert(others[k - 1] == (seq![letter], wanted));
                    assert forall|i: int,| 0 <= i < k - 1 implies (#[trigger] others[i]).0.last()
                        != letter by {
                        assert(others[i] == attributes[i + 1]);
                    }
                } else {
                    assert forall|i: int| 0 <= i < others.len() implies (
                    #[trigger] others[i]).0.last() != letter by {
                        assert(others[i] == attributes[i + 1]);
                    }
                }
            }
            lemma_attribute_is_found(raw, next, others, rest, letter, value);
        }
    }
}

/// The value of an attribute of a cell with a name of one letter is found.
proof fn lemma_value_of_attribute(
    attributes: Seq<Named>,
    rest: Seq<u8>,
    letter: u8,
    value: Option<Seq<u8>>,
)
    requires
        tag_fits(attributes),
        tag_states(attributes, letter, value),
        rest.len() > 0,
        rest[0] != 61,
        value is None ==> without(rest, 34),
    ensures
        quoted_after(cell_tag(attributes) + rest, seq![letter, 61u8, 34]) == value,
{
    let tag = cell_tag(attributes);
    let raw = tag + rest;
    let mark = seq![letter, 61u8, 34];
    lemma_tag_bytes(attributes);
    assert(raw.skip(2) =~= attributes_bytes(attributes) + rest);
    lemma_attribute_is_found(raw, 2, attributes, rest, letter, value);
    lemma_first_from(raw, mark, 0);
    lemma_first_from(raw, mark, 2);
    assert forall|j: int| 0 <= j < 2 implies !#[trigger] occurs_at(raw, mark, j) by {
        if occurs_at(raw, mark, j) {
            lemma_occurrence(raw, mark, j);
            assert(raw[j + 1] == mark[1]);
            assert(raw[1] == tag[1] && raw[2] == tag[2]);
        }
    }
    assert(first_from(raw, mark, 0) == first_from(raw, mark, 2));
}

/// A tag closes at its bracket, and itself where a slash stands before that.
proof fn lemma_tag_closes(xml: Seq<u8>, from: int, at: int)
    requires
        0 <= from <= at,
        at + 1 < xml.len(),
        xml[at] == 62 || xml[at] == 47 && xml[at + 1] == 62,
        forall|i: int| from <= i < at ==> #[trigger] xml[i] != 62 && xml[i] != 47,
    ensures
        tag_close(xml, from) == (if xml[at] == 62 {
            (at + 1, false)
        } else {
            (at + 2, true)
        }),
    decreases at - from,
{
    if from < at {
        assert(xml[from] != 62 && xml[from] != 47);
        lemma_tag_closes(xml, from + 1, at);
    }
}

/// Whether a tag that opens in bytes is there with its first bytes, and is not one of
/// those with the given letter.
pub open spec fn no_tag(bytes: Seq<u8>, letter: u8) -> bool {
    forall|i: int|
        0 <= i < bytes.len() && #[trigger] bytes[i] == 60 ==> i + 1 < bytes.len() && bytes[i + 1]
            != letter
}

/// What stands in the first element with a one-letter name is found.
proof fn lemma_element_is_found(
    head: Seq<u8>,
    letter: u8,
    value: Seq<u8>,
    rest: Seq<u8>,
    open: Seq<u8>,
    close: Seq<u8>,
)
    requires
        letter != 60,
        letter != 47,
        no_tag(head, letter),
        without(value, 60),
        open == seq![60u8, letter, 62],
        close == seq![60u8, 47, letter, 62],
    ensures
        between(head + (open + (value + (close + rest))), open, close) == Some(value),
{
    let raw = head + (open + (value + (close + rest)));
    let at = head.len() as int;
    let end = at + 3 + value.len();
    assert(occurs_at(raw, open, at)) by {
        assert(raw.subrange(at, at + 3) =~= open);
    }
    assert forall|j: int| 0 <= j < at implies !#[trigger] occurs_at(raw, open, j) by {
        if occurs_at(raw, open, j) {
            lemma_occurrence(raw, open, j);
            assert(raw[j + 0] == open[0] && raw[j + 1] == open[1]);
            assert(raw[j] == head[j]);
            assert(raw[j + 1] == head[j + 1]);
        }
    }
    lemma_found(raw, open, 0, at);
    assert(occurs_at(raw, close, end)) by {
        assert(raw.subrange(end, end + 4) =~= close);
    }
    assert forall|j: int| at + 3 <= j < end implies !#[trigger] occurs_at(raw, close, j) by {
        if occurs_at(raw, close, j) {
            lemma_occurrence(raw, close, j);
            assert(raw[j + 0] == close[0]);
            assert(raw[j] == value[j - at - 3]);
        }
    }
    lemma_found(raw, close, at + 3, end);
    assert(raw.subrange(at + 3, end) =~= value);
}

/// An element with a one-letter name that is not there is not found.
proof fn lemma_no_element(raw: Seq<u8>, letter: u8, open: Seq<u8>, close: Seq<u8>)
    requires
        no_tag(raw, letter),
        open == seq![60u8, letter, 62],
    ensures
        between(raw, open, close) is None,
{
    lemma_first_from(raw, open, 0);
    if let Some(j) = first_from(raw, open, 0) {
        lemma_occurrence(raw, open, j);
        assert(raw[j + 0] == open[0] && raw[j + 1] == open[1]);
    }
}

/// A cell is no empty-element tag where its tag ends with a bracket alone.
proof fn lemma_cell_is_full(
    attributes: Seq<Named>,
    rest: Seq<u8>,
)
    requires
        tag_fits(attributes),
        rest.len() >= 2,
        rest[0] == 62 || rest[0] == 47 && rest[1] == 62,
    ensures
        self_closing_cell(cell_tag(attributes) + rest) == (rest[0] == 47),
{
    lemma_marks();
    lemma_tag_bytes(attributes);
    let tag = cell_tag(attributes);
    let raw = tag + rest;
    let end = tag.len() as int;
    assert(occurs_at(raw, bytes_of("<c"), 0)) by {
        assert(raw.subrange(0, 2) =~= bytes_of("<c"));
    }
    lemma_found(raw, bytes_of("<c"), 0, 0);
    assert forall|i: int| 2 <= i < end implies #[trigger] raw[i] != 62 && raw[i] != 47 by {
        assert(raw[i] == tag[i]);
    }
    assert(raw[end] == rest[0] && raw[end + 1] == rest[1]);
    lemma_tag_closes(raw, 2, end);
}

/// Whether the attributes of a cell state its reference, and its type where it has one.
pub open spec fn cell_states(
    attributes: Seq<Named>,
    reference: Seq<u8>,
    kind: Option<Seq<u8>>,
) -> bool {
    &&& tag_fits(attributes)
    &&& tag_states(attributes, 114, Some(reference))
    &&& tag_states(attributes, 116, kind)
}

/// A cell with content, as far as its content goes.
proof fn lemma_full_cell(
    attributes: Seq<Named>,
    reference: Seq<u8>,
    kind: Option<Seq<u8>>,
    content: Seq<u8>,
)
    requires
        cell_states(attributes, reference, kind),
        without(content, 34),
    ensures
        ({
            let raw = full_cell(cell_tag(attributes), content);
            &&& quoted_after(raw, bytes_of("r=\"")) == Some(reference)
            &&& quoted_after(raw, bytes_of("t=\"")) == kind
            &&& !self_closing_cell(raw)
        }),
{
    let tag = cell_tag(attributes);
    let rest = seq![62u8] + content + seq![60u8, 47, 99, 62];
    assert forall|i: int| 0 <= i < rest.len() implies #[trigger] rest[i] != 34 by {
        if 1 <= i < 1 + content.len() {
            assert(rest[i] == content[i - 1]);
        }
    }
    assert(full_cell(tag, content) =~= tag + rest);
    lemma_marks();
    lemma_value_of_attribute(attributes, rest, 114, Some(reference));
    lemma_value_of_attribute(attributes, rest, 116, kind);
    lemma_cell_is_full(attributes, rest);
}

/// What stands in a cell before its value, and behind it.
pub open spec fn beside_value(bytes: Seq<u8>) -> bool {
    no_tag(bytes, 118) && without(bytes, 34)
}

/// The bytes of a `v` element, with what stands before and behind it in its cell.
pub open spec fn value_content(before: Seq<u8>, value: Seq<u8>, behind: Seq<u8>) -> Seq<u8> {
    before + seq![60u8, 118, 62] + value + seq![60u8, 47, 118, 62] + behind
}

/// A cell with a value is scanned as that value by its type, at the position that its
/// reference names, in whatever order its attributes come, and whatever stands before and behind the value, such as its formula.
pub proof fn law_value_is_scanned(
    attributes: Seq<Named>,
    reference: Seq<u8>,
    row: nat,
    col: nat,
    kind: Option<Seq<u8>>,
    before: Seq<u8>,
    value: Seq<u8>,
    behind: Seq<u8>,
    number: Option<Float>,
    cell: Cell<Data>,
)
    requires
        is_reference(reference, row, col),
        cell_states(attributes, reference, kind),
        beside_value(before),
        without(behind, 34),
        without(value, 60),
        without(value, 34),
        parsed_cell(
            full_cell(cell_tag(attributes), value_content(before, value, behind)),
            number,
            cell,
        ),
    ensures
        cell.position().0 == row - 1,
        cell.position().1 == col - 1,
        fragment_value(value, kind, number, cell.value()),
{
    lemma_reference(reference, row, col);
    lemma_value_is_found(attributes, reference, kind, before, value, behind);
}

/// The value and the type of a cell are found.
proof fn lemma_value_is_found(
    attributes: Seq<Named>,
    reference: Seq<u8>,
    kind: Option<Seq<u8>>,
    before: Seq<u8>,
    value: Seq<u8>,
    behind: Seq<u8>,
)
    requires
        cell_states(attributes, reference, kind),
        beside_value(before),
        without(behind, 34),
        without(value, 60),
        without(value, 34),
    ensures
        ({
            let raw = full_cell(
                cell_tag(attributes),
                value_content(before, value, behind),
            );
            &&& quoted_after(raw, bytes_of("r=\"")) == Some(reference)
            &&& quoted_after(raw, bytes_of("t=\"")) == kind
            &&& between(raw, bytes_of("<v>"), bytes_of("</v>")) == Some(value)
            &&& !self_closing_cell(raw)
        }),
{
    lemma_marks();
    let tag = cell_tag(attributes);
    let content = value_content(before, value, behind);
    assert forall|i: int| 0 <= i < content.len() implies #[trigger] content[i] != 34 by {
        let a = before.len() as int;
        let b = a + 3 + value.len();
        if i < a {
            assert(content[i] == before[i]);
        } else if a + 3 <= i < b {
            assert(content[i] == value[i - a - 3]);
        } else if b + 4 <= i {
            assert(content[i] == behind[i - b - 4]);
        }
    }
    lemma_full_cell(attributes, reference, kind, content);
    lemma_tag_bytes(attributes);
    let head = tag + seq![62u8] + before;
    let rest = behind + seq![60u8, 47, 99, 62];
    let raw = full_cell(tag, content);
    let open = seq![60u8, 118, 62];
    let close = seq![60u8, 47, 118, 62];
    assert(raw =~= head + (open + (value + (close + rest))));
    lemma_head_has_no_tag(tag, before, 118);
    lemma_element_is_found(head, 118, value, rest, open, close);
}

proof fn lemma_head_has_no_tag(tag: Seq<u8>, before: Seq<u8>, letter: u8)
    requires
        tag.len() >= 2,
        tag[1] == 99,
        letter != 99,
        forall|i: int| 1 <= i < tag.len() ==> #[trigger] tag[i] != 60,
        no_tag(before, letter),
    ensures
        no_tag(tag + seq![62u8] + before, letter),
{
    let head = tag + seq![62u8] + before;
    let n = tag.len() as int;
    assert forall|i: int| 0 <= i < head.len() && #[trigger] head[i] == 60 implies i + 1 < head.len()
        && head[i + 1] != letter by {
        if i < n {
            assert(head[i] == tag[i]);
            assert(i == 0);
            assert(head[1] == tag[1]);
        } else if i > n {
            assert(head[i] == before[i - n - 1]);
            assert(head[i + 1] == before[i - n]);
        }
    }
}

/// A number is scanned as that number: an integer in decimal notation, in a cell without a
/// type or with one that is not `s`, `b`, `str` or `e`, such as `n`. What else the cell
/// states, in whatever order, and what else stands in it has no say.
pub proof fn law_number_is_scanned(
    attributes: Seq<Named>,
    reference: Seq<u8>,
    row: nat,
    col: nat,
    kind: Option<Seq<u8>>,
    before: Seq<u8>,
    n: i64,
    behind: Seq<u8>,
    number: Option<Float>,
    cell: Cell<Data>,
)
    requires
        is_reference(reference, row, col),
        cell_states(attributes, reference, kind),
        kind != Some(seq![115u8]),
        kind != Some(seq![98u8]),
        kind != Some(seq![115u8, 116, 114]),
        kind != Some(seq![101u8]),
        beside_value(before),
        without(behind, 34),
        parsed_cell(
            full_cell(
                cell_tag(attributes),
                value_content(before, encode_utf8(decimal(n as int)), behind),
            ),
            number,
            cell,
        ),
    ensures
        cell.position().0 == row - 1,
        cell.position().1 == col - 1,
        cell.value() == Data::Int(n),
{
    let value = encode_utf8(decimal(n as int));
    law_decimal_reads_back(n as int);
    law_integer_texts(value, n as int);
    lemma_integer_bytes(value, n as int);
    law_value_is_scanned(
        attributes,
        reference,
        row,
        col,
        kind,
        before,
        value,
        behind,
        number,
        cell,
    );
    law_scanned_values(value, kind, number, cell.value());
}

/// The notation of an integer holds a sign and digits only.
proof fn lemma_integer_bytes(bytes: Seq<u8>, n: int)
    requires
        signed_value(bytes) == Some(n),
    ensures
        forall|i: int|
            0 <= i < bytes.len() ==> #[trigger] bytes[i] == 43 || bytes[i] == 45 || 48 <= bytes[i]
                <= 57,
{
    let digits = if bytes[0] == 45 || bytes[0] == 43 {
        bytes.skip(1)
    } else {
        bytes
    };
    assert forall|i: int| 0 <= i < bytes.len() implies #[trigger] bytes[i] == 43 || bytes[i] == 45
        || 48 <= bytes[i] <= 57 by {
        if bytes[0] == 45 || bytes[0] == 43 {
            if i > 0 {
                assert(digits[i - 1] == bytes[i]);
            }
        } else {
            assert(digits[i] == bytes[i]);
        }
    }
}

/// An inline string is scanned as its text, where the cell has no value.
pub proof fn law_inline_text_is_scanned(
    attributes: Seq<Named>,
    reference: Seq<u8>,
    row: nat,
    col: nat,
    kind: Option<Seq<u8>>,
    before: Seq<u8>,
    text: Seq<u8>,
    behind: Seq<u8>,
    number: Option<Float>,
    cell: Cell<Data>,
)
    requires
        is_reference(reference, row, col),
        cell_states(attributes, reference, kind),
        beside_value(before),
        no_tag(before, 116),
        beside_value(behind),
        without(text, 60),
        without(text, 34),
        parsed_cell(
            full_cell(
                cell_tag(attributes),
                before + seq![60u8, 116, 62] + text + seq![60u8, 47, 116, 62] + behind,
            ),
            number,
            cell,
        ),
    ensures
        cell.position().0 == row - 1,
        cell.position().1 == col - 1,
        is_text(cell.value(), lossy_text(text)),
{
    lemma_marks();
    lemma_reference(reference, row, col);
    let tag = cell_tag(attributes);
    let open = seq![60u8, 116, 62];
    let close = seq![60u8, 47, 116, 62];
    let content = before + open + text + close + behind;
    let a = before.len() as int;
    let b = a + 3 + text.len();
    assert forall|i: int| 0 <= i < content.len() implies #[trigger] content[i] != 34 by {
        if i < a {
            assert(content[i] == before[i]);
        } else if a + 3 <= i < b {
            assert(content[i] == text[i - a - 3]);
        } else if b + 4 <= i {
            assert(content[i] == behind[i - b - 4]);
        }
    }
    lemma_full_cell(attributes, reference, kind, content);
    lemma_tag_bytes(attributes);
    let head = tag + seq![62u8] + before;
    let rest = behind + seq![60u8, 47, 99, 62];
    let raw = full_cell(tag, content);
    assert(raw =~= head + (open + (text + (close + rest))));
    lemma_head_has_no_tag(tag, before, 116);
    lemma_element_is_found(head, 116, text, rest, open, close);
    lemma_head_has_no_tag(tag, before, 118);
    let n = head.len() as int;
    let m = n + 7 + text.len();
    assert forall|i: int| 0 <= i < raw.len() && #[trigger] raw[i] == 60 implies i + 1 < raw.len()
        && raw[i + 1] != 118 by {
        if i < n {
            assert(raw[i] == head[i]);
            assert(raw[i + 1] == head[i + 1]);
        } else if i < n + 3 {
            assert(raw[n + 1] == 116);
        } else if i < m - 4 {
            assert(raw[i] == text[i - n - 3]);
        } else if i < m {
            assert(raw[m - 3] == 47);
        } else if i < m + behind.len() {
            assert(raw[i] == behind[i - m]);
            assert(raw[i + 1] == behind[i - m + 1]);
        } else {
            assert(raw[m + behind.len() + 1] == 47);
        }
    }
    lemma_no_element(raw, 118, bytes_of("<v>"), bytes_of("</v>"));
}

/// A cell that holds nothing is scanned as empty, at the position that its reference names:
/// an empty-element tag, or a cell without a value and without a text.
pub proof fn law_empty_cell_is_scanned(
    attributes: Seq<Named>,
    reference: Seq<u8>,
    row: nat,
    col: nat,
    kind: Option<Seq<u8>>,
    content: Seq<u8>,
    number: Option<Float>,
    cell: Cell<Data>,
)
    requires
        is_reference(reference, row, col),
        cell_states(attributes, reference, kind),
        beside_value(content),
        no_tag(content, 116),
        parsed_cell(full_cell(cell_tag(attributes), content), number, cell)
            || parsed_cell(empty_cell(cell_tag(attributes)), number, cell),
    ensures
        cell.position().0 == row - 1,
        cell.position().1 == col - 1,
        cell.value() == Data::Empty,
{
    lemma_marks();
    lemma_reference(reference, row, col);
    let tag = cell_tag(attributes);
    lemma_tag_bytes(attributes);
    if parsed_cell(empty_cell(tag), number, cell) {
        let rest = seq![47u8, 62];
        lemma_value_of_attribute(attributes, rest, 114, Some(reference));
        lemma_cell_is_full(attributes, rest);
    } else {
        lemma_full_cell(attributes, reference, kind, content);
        let raw = full_cell(tag, content);
        let head = tag + seq![62u8] + content;
        lemma_head_has_no_tag(tag, content, 116);
        lemma_head_has_no_tag(tag, content, 118);
        assert(raw =~= head + seq![60u8, 47, 99, 62]);
        assert forall|i: int| 0 <= i < raw.len() && #[trigger] raw[i] == 60 implies i + 1
            < raw.len() && raw[i + 1] != 118 && raw[i + 1] != 116 by {
            if i < head.len() {
                assert(raw[i] == head[i]);
                assert(raw[i + 1] == head[i + 1]);
            } else {
                assert(raw[1 + head.len() as int] == 47);
            }
        }
        lemma_no_element(raw, 118, bytes_of("<v>"), bytes_of("</v>"));
        lemma_no_element(raw, 116, bytes_of("<t>"), bytes_of("</t>"));
    }
}

/// Whether bytes can stand in a cell: no end tag of a cell opens in them.
pub open spec fn inside_cell(content: Seq<u8>) -> bool {
    forall|i: int|
        0 <= i < content.len() && #[trigger] content[i] == 60 ==> i + 2 < content.len() && !(
        content[i + 1] == 47 && content[i + 2] == 99)
}

/// Whether bytes can stand between cells: no cell opens in them.
pub open spec fn outside_cells(bytes: Seq<u8>) -> bool {
    forall|i: int|
        0 <= i < bytes.len() && #[trigger] bytes[i] == 60 ==> i + 2 < bytes.len() && !(bytes[i + 1]
            == 99 && (bytes[i + 2] == 32 || bytes[i + 2] == 62))
}

/// Whether bytes are a cell, with the given attributes and content.
pub open spec fn is_cell_of(bytes: Seq<u8>, attributes: Seq<Named>, content: Seq<u8>) -> bool {
    &&& tag_fits(attributes)
    &&& inside_cell(content)
    &&& bytes == full_cell(cell_tag(attributes), content) || bytes == empty_cell(
        cell_tag(attributes),
    )
}

/// Whether bytes are a cell.
pub open spec fn is_cell(bytes: Seq<u8>) -> bool {
    exists|attributes: Seq<Named>, content: Seq<u8>| #[trigger]
        is_cell_of(bytes, attributes, content)
}

proof fn lemma_content_closes(xml: Seq<u8>, from: int, at: int)
    requires
        0 <= from <= at,
        at + 3 < xml.len(),
        xml[at] == 60 && xml[at + 1] == 47 && xml[at + 2] == 99 && xml[at + 3] == 62,
        forall|i: int|
            from <= i < at && #[trigger] xml[i] == 60 ==> !(xml[i + 1] == 47 && xml[i + 2] == 99),
    ensures
        content_close(xml, from) == at + 4,
    decreases at - from,
{
    if from < at {
        lemma_content_closes(xml, from + 1, at);
    }
}

/// A cell in a sheet opens where it starts and closes where it ends.
proof fn lemma_cell_is_closed(xml: Seq<u8>, at: int, cell: Seq<u8>)
    requires
        is_cell(cell),
        0 <= at,
        at + cell.len() <= xml.len(),
        xml.subrange(at, at + cell.len()) == cell,
    ensures
        at + 2 < xml.len(),
        opens_cell(xml, at),
        cell_close(xml, at) == at + cell.len(),
{
    let (attributes, content) = choose|attributes: Seq<Named>, content: Seq<u8>| #[trigger]
        is_cell_of(cell, attributes, content);
    let tag = cell_tag(attributes);
    lemma_tag_bytes(attributes);
    let n = tag.len() as int;
    assert forall|i: int| 0 <= i < cell.len() implies xml[at + i] == #[trigger] cell[i] by {
        assert(xml.subrange(at, at + cell.len())[i] == xml[at + i]);
    }
    assert forall|i: int| 0 <= i < n implies #[trigger] cell[i] == tag[i] by {}
    assert(xml[at] == cell[0] && xml[at + 1] == cell[1] && xml[at + 2] == cell[2]);
    assert forall|i: int| at + 2 <= i < at + n implies #[trigger] xml[i] != 62 && xml[i] != 47 by {
        assert(xml[at + (i - at)] == cell[i - at]);
        assert(cell[i - at] == tag[i - at]);
    }
    assert(xml[at + n] == cell[n] && xml[at + (n + 1)] == cell[n + 1]);
    lemma_tag_closes(xml, at + 2, at + n);
    if cell == full_cell(tag, content) {
        let end = n + 1 + content.len();
        assert(cell[n] == 62);
        assert forall|i: int| 0 <= i < content.len() implies cell[n + 1 + i]
            == #[trigger] content[i] by {}
        assert(cell[end] == 60 && cell[end + 1] == 47 && cell[end + 2] == 99 && cell[end + 3]
            == 62);
        assert(xml[at + end] == cell[end] && xml[at + (end + 1)] == cell[end + 1] && xml[at + (end
            + 2)] == cell[end + 2] && xml[at + (end + 3)] == cell[end + 3]);
        assert forall|i: int| at + n + 1 <= i < at + end && #[trigger] xml[i] == 60 implies !(xml[i
            + 1] == 47 && xml[i + 2] == 99) by {
            let j = i - at - n - 1;
            assert(xml[at + (n + 1 + j)] == cell[n + 1 + j]);
            assert(content[j] == 60);
            assert(xml[at + (n + 2 + j)] == cell[n + 2 + j]);
            assert(xml[at + (n + 3 + j)] == cell[n + 3 + j]);
            assert(cell[n + 1 + (j + 1)] == content[j + 1]);
            assert(cell[n + 1 + (j + 2)] == content[j + 2]);
        }
        lemma_content_closes(xml, at + n + 1, at + end);
    }
}

/// Where no cell opens, none is found.
proof fn lemma_lead_is_passed(xml: Seq<u8>, at: int, to: int)
    requires
        0 <= at <= to <= xml.len(),
        forall|i: int| at <= i < to && i + 2 < xml.len() ==> !#[trigger] opens_cell(xml, i),
    ensures
        cell_ranges(xml, at) == cell_ranges(xml, to),
    decreases to - at,
{
    if at < to {
        if at + 2 < xml.len() {
            assert(!opens_cell(xml, at));
            lemma_lead_is_passed(xml, at + 1, to);
        } else {
            assert(cell_ranges(xml, at) =~= cell_ranges(xml, to));
        }
    }
}

/// What stands between cells opens none in a sheet.
proof fn lemma_outside_opens_none(xml: Seq<u8>, at: int, bytes: Seq<u8>)
    requires
        outside_cells(bytes),
        0 <= at,
        at + bytes.len() <= xml.len(),
        xml.subrange(at, at + bytes.len()) == bytes,
    ensures
        cell_ranges(xml, at) == cell_ranges(xml, at + bytes.len()),
{
    assert forall|i: int| 0 <= i < bytes.len() implies xml[at + i] == #[trigger] bytes[i] by {
        assert(xml.subrange(at, at + bytes.len())[i] == xml[at + i]);
    }
    assert forall|i: int| at <= i < at + bytes.len() && i + 2 < xml.len() implies !#[trigger]
        opens_cell(xml, i) by {
        let j = i - at;
        assert(xml[at + j] == bytes[j]);
        if bytes[j] == 60 {
            assert(xml[at + (j + 1)] == bytes[j + 1]);
            assert(xml[at + (j + 2)] == bytes[j + 2]);
        }
    }
    lemma_lead_is_passed(xml, at, at + bytes.len());
}

/// Cells, each with what stands before it, one after the other.
pub open spec fn joined_cells(pieces: Seq<(Seq<u8>, Seq<u8>)>) -> Seq<u8>
    decreases pieces.len(),
{
    if pieces.len() == 0 {
        Seq::empty()
    } else {
        pieces[0].0 + pieces[0].1 + joined_cells(pieces.skip(1))
    }
}

/// A sheet is cut into its cells: every cell is cut out whole, in the order of the sheet,
/// and nothing else is, whatever stands before, between and behind the cells.
pub proof fn law_cells_are_cut(
    front: Seq<u8>,
    pieces: Seq<(Seq<u8>, Seq<u8>)>,
    trail: Seq<u8>,
)
    requires
        forall|i: int|
            0 <= i < pieces.len() ==> outside_cells((#[trigger] pieces[i]).0) && is_cell(
                pieces[i].1,
            ),
        outside_cells(trail),
    ensures
        ({
            let xml = front + joined_cells(pieces) + trail;
            let ranges = cell_ranges(xml, front.len() as int);
            &&& ranges.len() == pieces.len()
            &&& forall|i: int|
                0 <= i < pieces.len() ==> 0 <= (#[trigger] ranges[i]).0 <= ranges[i].1 <= xml.len()
                    && xml.subrange(ranges[i].0, ranges[i].1) == pieces[i].1
        }),
    decreases pieces.len(),
{
    let xml = front + joined_cells(pieces) + trail;
    let at = front.len() as int;
    let ranges = cell_ranges(xml, at);
    if pieces.len() == 0 {
        assert(xml.subrange(at, at + trail.len()) =~= trail);
        lemma_outside_opens_none(xml, at, trail);
        assert(ranges =~= Seq::<(int, int)>::empty());
    } else {
        let (lead, cell) = pieces[0];
        let others = pieces.skip(1);
        assert(outside_cells(pieces[0].0) && is_cell(pieces[0].1));
        assert forall|i: int| 0 <= i < others.len() implies outside_cells((#[trigger] others[i]).0)
            && is_cell(others[i].1) by {
            assert(others[i] == pieces[i + 1]);
        }
        let next = front + lead + cell;
        law_cells_are_cut(next, others, trail);
        assert(xml =~= next + joined_cells(others) + trail);
        assert(xml.subrange(at, at + lead.len()) =~= lead);
        lemma_outside_opens_none(xml, at, lead);
        let start = at + lead.len();
        assert(xml.subrange(start, start + cell.len()) =~= cell);
        lemma_cell_is_closed(xml, start, cell);
        let later = cell_ranges(xml, start + cell.len());
        assert(next.len() == start + cell.len());
        assert(ranges == seq![(start, start + cell.len())] + later);
        assert forall|i: int| 0 <= i < pieces.len() implies 0 <= (#[trigger] ranges[i]).0
            <= ranges[i].1 <= xml.len() && xml.subrange(ranges[i].0, ranges[i].1)
            == pieces[i].1 by {
            if i > 0 {
                assert(ranges[i] == later[i - 1]);
                assert(others[i - 1] == pieces[i]);
            }
        }
    }
}

/// The used range that a sheet states is found by scanning, wherever its tag stands, and
/// whatever follows the range in the tag.
pub proof fn law_range_is_scanned(
    front: Seq<u8>,
    range: Seq<u8>,
    more: Seq<u8>,
    rest: Seq<u8>,
    corners: ((int, int), (int, int)),
)
    requires
        no_tag(front, 100),
        without(range, 34),
        without(range, 62),
        without(more, 62),
        dimension_of(range) == Ok::<((int, int), (int, int)), Failure>(corners),
    ensures
        fast_range(front + (bytes_of("<dimension ") + (bytes_of("ref=\"") + range + seq![34u8] + more
            + (seq![62u8] + rest)))) == corners,
{
    reveal_strlit("<dimension ");
    reveal_strlit("ref=\"");
    is_ascii_chars_encode_utf8("<dimension "@);
    is_ascii_chars_encode_utf8("ref=\""@);
    let open = bytes_of("<dimension ");
    let mark = bytes_of("ref=\"");
    assert(open.len() == 11 && open[0] == 60 && open[1] == 100);
    assert(mark =~= seq![114u8, 101, 102, 61, 34]);
    let attributes = mark + range + seq![34u8] + more;
    let xml = front + (open + (attributes + (seq![62u8] + rest)));
    let at = front.len() as int;
    let start = at + 11;
    let end = start + attributes.len();
    assert(occurs_at(xml, open, at)) by {
        assert(xml.subrange(at, at + 11) =~= open);
    }
    assert forall|j: int| 0 <= j < at implies !#[trigger] occurs_at(xml, open, j) by {
        if occurs_at(xml, open, j) {
            lemma_occurrence(xml, open, j);
            assert(xml[j + 0] == open[0] && xml[j + 1] == open[1]);
            assert(xml[j] == front[j]);
            assert(xml[j + 1] == front[j + 1]);
        }
    }
    lemma_found(xml, open, 0, at);
    assert forall|i: int| start <= i < end implies xml[i] == #[trigger] attributes[i - start] by {}
    let n = range.len() as int;
    assert forall|i: int| 0 <= i < attributes.len() implies #[trigger] attributes[i] != 62 by {
        if 5 <= i < 5 + n {
            assert(attributes[i] == range[i - 5]);
        } else if 6 + n <= i {
            assert(attributes[i] == more[i - 6 - n]);
        }
    }
    assert forall|i: int| start <= i < end implies #[trigger] xml[i] != 62 by {
        assert(xml[i] == attributes[i - start]);
    }
    assert(xml[end] == 62);
    lemma_byte_at(xml, 62, start, end);
    assert(xml.subrange(start, end) =~= attributes);
    assert(occurs_at(attributes, mark, 0)) by {
        assert(attributes.subrange(0, 5) =~= mark);
    }
    lemma_found(attributes, mark, 0, 0);
    assert forall|i: int| 5 <= i < 5 + n implies #[trigger] attributes[i] != 34 by {
        assert(attributes[i] == range[i - 5]);
    }
    lemma_byte_at(attributes, 34, 5, 5 + n);
    assert(attributes.subrange(5, 5 + n) =~= range);
}

/// The value of a cell is to be read as a floating-point number exactly where it is no
/// integer, and the cell has no type or one that is not `s`, `b`, `str` or `e`.
pub proof fn law_number_is_wanted(
    attributes: Seq<Named>,
    reference: Seq<u8>,
    kind: Option<Seq<u8>>,
    before: Seq<u8>,
    value: Seq<u8>,
    behind: Seq<u8>,
)
    requires
        cell_states(attributes, reference, kind),
        beside_value(before),
        without(behind, 34),
        without(value, 60),
        without(value, 34),
    ensures
        number_wanted(
            full_cell(cell_tag(attributes), value_content(before, value, behind)),
        ) == (if is_integer(value) || kind == Some(seq![115u8]) || kind == Some(seq![98u8]) || kind
            == Some(seq![115u8, 116, 114]) || kind == Some(seq![101u8]) {
            None
        } else {
            Some(value)
        }),
{
    lemma_value_is_found(attributes, reference, kind, before, value, behind);
    crate::cell_values::lemma_type_bytes();
    crate::cell_values::lemma_integer(value);
}

/// A sheet without a tag that states its used range has the range of its first cell.
pub proof fn law_no_range_is_scanned(xml: Seq<u8>)
    requires
        no_tag(xml, 100),
    ensures
        fast_range(xml) == ((0int, 0int), (0int, 0int)),
{
    reveal_strlit("<dimension ");
    reveal_strlit("<dimension");
    is_ascii_chars_encode_utf8("<dimension "@);
    is_ascii_chars_encode_utf8("<dimension"@);
    lemma_mark_is_missing(xml, bytes_of("<dimension "), 100);
    lemma_mark_is_missing(xml, bytes_of("<dimension"), 100);
}

proof fn lemma_mark_is_missing(xml: Seq<u8>, mark: Seq<u8>, letter: u8)
    requires
        no_tag(xml, letter),
        mark.len() >= 2,
        mark[0] == 60,
        mark[1] == letter,
    ensures
        first_from(xml, mark, 0) is None,
{
    lemma_first_from(xml, mark, 0);
    if let Some(j) = first_from(xml, mark, 0) {
        lemma_occurrence(xml, mark, j);
        assert(xml[j + 0] == mark[0] && xml[j + 1] == mark[1]);
    }
}

} // verus!
