//! The fast reader of a worksheet: the sheet is cut into cells by a byte scan,
//! the cells are parsed in chunks, and the results are put back in order.

use crate::arrow::SharedStrings;
use crate::error::{error, failure, ErrorKind, Failure, XlsxError};
use crate::excel_types::{error_code, Cell, CellErrorType, Data, Dimensions};
use crate::float::Float;
use crate::text::{
    all_digits, byte_from, bytes_of, decode_lossy, find_byte, find_from, find_subsequence,
    first_from, lossy_text, parse_i64, parse_usize, same_bytes, signed_value, unsigned_value,
};
use crate::utils::{a1_position, corners, dimension_of, parse_a1, parse_dimension};
use crate::workbook::{
    archive_entry, name_text, part_bytes, picked_sheet, workbook_sheets, workbook_strings, PIECE,
    workbook_formats, XlsxWorkbook,
};
use std::collections::HashMap;
use std::sync::Arc;
use vstd::prelude::*;
use vstd::utf8::*;

verus! {

broadcast use vstd::std_specs::hash::group_hash_axioms;

/// The number of cells that a worker parses at a time.
pub const CHUNK_SIZE: usize = 1000;

/// Whether a text is made of digits, with at most one sign before them.
pub open spec fn signed_digits(text: Seq<u8>) -> bool {
    if text.len() > 0 && (text[0] == 43 || text[0] == 45) {
        all_digits(text.skip(1))
    } else {
        all_digits(text)
    }
}

/// `atoi_simd::parse` for `i64`, with leading zeros and a plus sign allowed: the
/// integer that digits denote, `None` exactly where they denote none. What is no
/// digit can make it negate the smallest integer, which panics where overflow is
/// checked; and it counts digits in 32 bits.
#[verifier::external_body]
pub(crate) fn fast_i64(text: &[u8]) -> (value: Option<i64>)
    requires
        signed_digits(text@),
        text.len() <= u32::MAX,
    ensures
        match value {
            Some(n) => signed_value(text@) == Some(n as int),
            None => signed_value(text@) is None,
        },
{
    atoi_simd::parse::<i64, true, true>(text).ok()
}

/// `atoi_simd::parse` for `usize`, with leading zeros and a plus sign allowed:
/// the integer that a text denotes, `None` exactly where it denotes none. It counts
/// digits in 32 bits.
#[verifier::external_body]
pub(crate) fn fast_usize(text: &[u8]) -> (value: Option<usize>)
    requires
        text.len() <= u32::MAX,
    ensures
        match value {
            Some(n) => unsigned_value(text@, usize::MAX as int) == Some(n as int),
            None => unsigned_value(text@, usize::MAX as int) is None,
        },
{
    atoi_simd::parse::<usize, true, true>(text).ok()
}

fn is_signed_digits(text: &[u8]) -> (digits: bool)
    ensures
        digits == signed_digits(text@),
{
    let start: usize = if text.len() > 0 && (text[0] == 43 || text[0] == 45) {
        1
    } else {
        0
    };
    let mut i: usize = start;
    while i < text.len()
        invariant
            start <= i <= text.len(),
            start == (if text.len() > 0 && (text@[0] == 43 || text@[0] == 45) {
                1int
            } else {
                0int
            }),
            forall|k: int| start <= k < i ==> 48 <= #[trigger] text@[k] <= 57,
        decreases text.len() - i,
    {
        if text[i] < 48 || text[i] > 57 {
            assert(text@.skip(start as int)[i - start] == text@[i as int]);
            assert(text@.skip(0) =~= text@);
            return false;
        }
        i += 1;
    }
    assert forall|k: int| 0 <= k < text@.skip(start as int).len() implies 48
        <= #[trigger] text@.skip(start as int)[k] <= 57 by {
        assert(text@.skip(start as int)[k] == text@[start + k]);
    }
    assert(text@.skip(0) =~= text@);
    true
}

/// The 64-bit integer that a text denotes.
fn read_i64(text: &[u8]) -> (value: Option<i64>)
    ensures
        match value {
            Some(n) => signed_value(text@) == Some(n as int),
            None => signed_value(text@) is None,
        },
{
    if !is_signed_digits(text) {
        return None;
    }
    if text.len() as u64 > u32::MAX as u64 {
        return parse_i64(text);
    }
    fast_i64(text)
}

/// The index that a text denotes.
fn read_usize(text: &[u8]) -> (value: Option<usize>)
    ensures
        match value {
            Some(n) => unsigned_value(text@, usize::MAX as int) == Some(n as int),
            None => unsigned_value(text@, usize::MAX as int) is None,
        },
{
    if text.len() as u64 > u32::MAX as u64 {
        return parse_usize(text);
    }
    fast_usize(text)
}

/// What stands between a marker and the next double quote.
pub open spec fn quoted_after(raw: Seq<u8>, marker: Seq<u8>) -> Option<Seq<u8>> {
    match first_from(raw, marker, 0) {
        None => None,
        Some(at) => {
            let start = at + marker.len();
            let end = byte_from(raw, 34, start);
            if end >= raw.len() {
                None
            } else {
                Some(raw.subrange(start, end))
            }
        },
    }
}

/// What stands between the first opening marker and the closing marker after it.
pub open spec fn between(raw: Seq<u8>, open: Seq<u8>, close: Seq<u8>) -> Option<Seq<u8>> {
    match first_from(raw, open, 0) {
        None => None,
        Some(at) => match first_from(raw, close, at + open.len()) {
            None => None,
            Some(end) => Some(raw.subrange(at + open.len(), end)),
        },
    }
}

fn find_quoted<'a>(raw: &'a [u8], marker: &[u8]) -> (found: Option<&'a [u8]>)
    ensures
        match found {
            Some(text) => quoted_after(raw@, marker@) == Some(text@),
            None => quoted_after(raw@, marker@) is None,
        },
{
    match find_subsequence(raw, marker) {
        None => None,
        Some(at) => {
            let start: usize = at + marker.len();
            let end: usize = find_byte(raw, 34, start);
            if end >= raw.len() {
                None
            } else {
                Some(vstd::slice::slice_subrange(raw, start, end))
            }
        },
    }
}

fn find_between<'a>(raw: &'a [u8], open: &[u8], close: &[u8]) -> (found: Option<&'a [u8]>)
    ensures
        match found {
            Some(text) => between(raw@, open@, close@) == Some(text@),
            None => between(raw@, open@, close@) is None,
        },
{
    match find_subsequence(raw, open) {
        None => None,
        Some(at) => {
            let start: usize = at + open.len();
            match find_from(raw, close, start) {
                None => None,
                Some(end) => Some(vstd::slice::slice_subrange(raw, start, end)),
            }
        },
    }
}

/// Where the attributes of the first `dimension` tag start, if there is one.
pub open spec fn dimension_start(xml: Seq<u8>) -> Option<int> {
    match first_from(xml, bytes_of("<dimension "), 0) {
        Some(at) => Some(at + 11),
        None => match first_from(xml, bytes_of("<dimension"), 0) {
            Some(at) => Some(at + 10),
            None => None,
        },
    }
}

/// The used range that a sheet states: that of the first `dimension` tag, (0, 0)
/// to (0, 0) where it states none.
pub open spec fn scanned_dimension(xml: Seq<u8>) -> Result<((int, int), (int, int)), Failure> {
    match dimension_start(xml) {
        None => Ok(((0, 0), (0, 0))),
        Some(start) => match quoted_after(
            xml.subrange(start, byte_from(xml, 62, start)),
            bytes_of("ref=\""),
        ) {
            None => Ok(((0, 0), (0, 0))),
            Some(reference) => dimension_of(reference),
        },
    }
}

proof fn lemma_marker_lengths()
    ensures
        bytes_of("<dimension ").len() == 11,
        bytes_of("<dimension").len() == 10,
        bytes_of("<c").len() == 2,
{
    reveal_strlit("<dimension ");
    reveal_strlit("<dimension");
    reveal_strlit("<c");
    is_ascii_chars_encode_utf8("<dimension "@);
    is_ascii_chars_encode_utf8("<dimension"@);
    is_ascii_chars_encode_utf8("<c"@);
}

/// Finds the used range that a sheet states.
pub fn parse_dimensions(xml: &[u8]) -> (dimensions: Result<Dimensions, XlsxError>)
    ensures
        match dimensions {
            Ok(d) => scanned_dimension(xml@) == Ok::<((int, int), (int, int)), Failure>(corners(d))
                && d.end.0 < u32::MAX && d.end.1 < u32::MAX,
            Err(e) => scanned_dimension(xml@) == Err::<((int, int), (int, int)), Failure>(e@),
        },
{
    proof {
        lemma_marker_lengths();
    }
    let start: usize = match find_subsequence(xml, "<dimension ".as_bytes()) {
        Some(at) => at + 11,
        None => match find_subsequence(xml, "<dimension".as_bytes()) {
            Some(at) => at + 10,
            None => {
                return Ok(Dimensions { start: (0, 0), end: (0, 0) });
            },
        },
    };
    let tag_end: usize = find_byte(xml, 62, start);
    let attrs = vstd::slice::slice_subrange(xml, start, tag_end);
    match find_quoted(attrs, "ref=\"".as_bytes()) {
        None => Ok(Dimensions { start: (0, 0), end: (0, 0) }),
        Some(reference) => parse_dimension(reference),
    }
}

/// Whether a cell's tag opens at `at`: `<c` and a space or a closing bracket.
pub open spec fn opens_cell(xml: Seq<u8>, at: int) -> bool {
    xml[at] == 60 && xml[at + 1] == 99 && (xml[at + 2] == 32 || xml[at + 2] == 62)
}

/// Where the tag that `from` stands in ends, and whether it closes itself. A tag
/// that does not end is cut off before the last byte.
pub open spec fn tag_close(xml: Seq<u8>, from: int) -> (int, bool)
    decreases xml.len() - from,
{
    if from + 1 >= xml.len() {
        (from, false)
    } else if xml[from] == 47 && xml[from + 1] == 62 {
        (from + 2, true)
    } else if xml[from] == 62 {
        (from + 1, false)
    } else {
        tag_close(xml, from + 1)
    }
}

/// Where the cell whose content starts at `from` ends. A cell that does not end
/// is cut off before the last three bytes.
pub open spec fn content_close(xml: Seq<u8>, from: int) -> int
    decreases xml.len() - from,
{
    if from + 3 >= xml.len() {
        from
    } else if xml[from] == 60 && xml[from + 1] == 47 && xml[from + 2] == 99 && xml[from + 3]
        == 62 {
        from + 4
    } else {
        content_close(xml, from + 1)
    }
}

/// Where the cell that opens at `at` ends.
pub open spec fn cell_close(xml: Seq<u8>, at: int) -> int {
    let (tag_end, self_closing) = tag_close(xml, at + 2);
    if self_closing {
        tag_end
    } else {
        content_close(xml, tag_end)
    }
}

/// The cells of a sheet from `at` on: where each starts and ends.
pub open spec fn cell_ranges(xml: Seq<u8>, at: int) -> Seq<(int, int)>
    decreases xml.len() - at when 0 <= at
    via cell_ranges_end
{
    if at + 2 >= xml.len() {
        Seq::empty()
    } else if opens_cell(xml, at) {
        seq![(at, cell_close(xml, at))] + cell_ranges(xml, cell_close(xml, at))
    } else {
        cell_ranges(xml, at + 1)
    }
}

#[via_fn]
proof fn cell_ranges_end(xml: Seq<u8>, at: int) {
    if at + 2 < xml.len() {
        lemma_cell_close(xml, at);
    }
}

proof fn lemma_tag_close(xml: Seq<u8>, from: int)
    requires
        0 <= from <= xml.len(),
    ensures
        from <= tag_close(xml, from).0 <= xml.len(),
    decreases xml.len() - from,
{
    if from + 1 < xml.len() {
        lemma_tag_close(xml, from + 1);
    }
}

proof fn lemma_content_close(xml: Seq<u8>, from: int)
    requires
        0 <= from <= xml.len(),
    ensures
        from <= content_close(xml, from) <= xml.len(),
    decreases xml.len() - from,
{
    if from + 3 < xml.len() {
        lemma_content_close(xml, from + 1);
    }
}

/// A cell ends after it opens and inside the sheet.
pub proof fn lemma_cell_close(xml: Seq<u8>, at: int)
    requires
        0 <= at,
        at + 2 < xml.len(),
    ensures
        at + 2 <= cell_close(xml, at) <= xml.len(),
{
    lemma_tag_close(xml, at + 2);
    lemma_content_close(xml, tag_close(xml, at + 2).0);
}

/// Whether ranges lie one after the other from `at` on: each ends after it starts,
/// inside the sheet, and not after the next one starts; and each starts with a
/// cell's tag.
pub open spec fn in_order(xml: Seq<u8>, at: int, ranges: Seq<(int, int)>) -> bool {
    &&& forall|i: int|
        0 <= i < ranges.len() ==> at <= (#[trigger] ranges[i]).0 < ranges[i].1 <= xml.len()
            && opens_cell(xml, ranges[i].0)
    &&& forall|i: int, j: int|
        0 <= i < j < ranges.len() ==> (#[trigger] ranges[i]).1 <= (#[trigger] ranges[j]).0
}

/// The cells of a sheet do not overlap and come in the order of the sheet.
pub proof fn law_cells_do_not_overlap(xml: Seq<u8>, at: int)
    requires
        0 <= at,
    ensures
        in_order(xml, at, cell_ranges(xml, at)),
    decreases xml.len() - at,
{
    if at + 2 < xml.len() {
        let all = cell_ranges(xml, at);
        if opens_cell(xml, at) {
            lemma_cell_close(xml, at);
            let close = cell_close(xml, at);
            law_cells_do_not_overlap(xml, close);
            let rest = cell_ranges(xml, close);
            assert(all == seq![(at, close)] + rest);
            assert forall|i: int| 0 <= i < all.len() implies at <= (#[trigger] all[i]).0
                < all[i].1 <= xml.len() && opens_cell(xml, all[i].0) by {
                if i > 0 {
                    assert(all[i] == rest[i - 1]);
                }
            }
            assert forall|i: int, j: int| 0 <= i < j < all.len() implies (#[trigger] all[i]).1 <= (
            #[trigger] all[j]).0 by {
                assert(all[j] == rest[j - 1]);
                if i > 0 {
                    assert(all[i] == rest[i - 1]);
                }
            }
        } else {
            law_cells_do_not_overlap(xml, at + 1);
            assert(all == cell_ranges(xml, at + 1));
        }
    }
}

/// A range of positions, as contracts speak of it.
pub open spec fn range_items(ranges: Seq<(u32, u32)>) -> Seq<(int, int)> {
    ranges.map_values(|r: (u32, u32)| (r.0 as int, r.1 as int))
}

/// Finds where each cell of a sheet starts and ends.
pub fn scan_cell_boundaries(xml: &[u8]) -> (boundaries: Vec<(u32, u32)>)
    requires
        xml.len() <= u32::MAX,
    ensures
        range_items(boundaries@) == cell_ranges(xml@, 0),
{
    let mut boundaries: Vec<(u32, u32)> = Vec::with_capacity(xml.len() / 200);
    let mut i: usize = 0;
    let xml_len: usize = xml.len();
    assert(range_items(boundaries@) + cell_ranges(xml@, 0) =~= cell_ranges(xml@, 0));
    while i < xml_len && 2 < xml_len - i
        invariant
            xml_len == xml.len(),
            xml_len <= u32::MAX,
            i <= xml_len,
            range_items(boundaries@) + cell_ranges(xml@, i as int) == cell_ranges(xml@, 0),
        decreases xml_len - i,
    {
        let ghost found = boundaries@;
        if xml[i] == 60 && xml[i + 1] == 99 && (xml[i + 2] == 32 || xml[i + 2] == 62) {
            proof {
                lemma_cell_close(xml@, i as int);
                lemma_tag_close(xml@, i + 2);
            }
            let start: usize = i;
            let mut j: usize = i + 2;
            let mut self_closing = false;
            while 1 < xml_len - j
                invariant_except_break
                    !self_closing,
                    tag_close(xml@, start + 2) == tag_close(xml@, j as int),
                invariant
                    xml_len == xml.len(),
                    start + 2 <= j <= xml_len,
                ensures
                    start + 2 <= j <= xml_len,
                    tag_close(xml@, start + 2) == (j as int, self_closing),
                decreases xml_len - j,
            {
                if xml[j] == 47 && xml[j + 1] == 62 {
                    self_closing = true;
                    j += 2;
                    break;
                }
                if xml[j] == 62 {
                    j += 1;
                    break;
                }
                j += 1;
            }
            let ghost tag_end = j as int;
            if !self_closing {
                while 3 < xml_len - j
                    invariant_except_break
                        content_close(xml@, tag_end) == content_close(xml@, j as int),
                    invariant
                        xml_len == xml.len(),
                        start + 2 <= j <= xml_len,
                    ensures
                        start + 2 <= j <= xml_len,
                        content_close(xml@, tag_end) == j,
                    decreases xml_len - j,
                {
                    if xml[j] == 60 && xml[j + 1] == 47 && xml[j + 2] == 99 && xml[j + 3] == 62 {
                        j += 4;
                        break;
                    }
                    j += 1;
                }
            }
            boundaries.push((start as u32, j as u32));
            i = j;
            proof {
                assert(range_items(boundaries@) =~= range_items(found).push(
                    (start as int, j as int),
                ));
                assert(range_items(boundaries@) + cell_ranges(xml@, j as int) =~= range_items(found)
                    + cell_ranges(xml@, start as int));
            }
        } else {
            i += 1;
        }
    }
    assert(range_items(boundaries@) + cell_ranges(xml@, i as int) =~= range_items(boundaries@));
    boundaries
}

/// Whether the tag that `from` stands in closes itself; a tag that does not end
/// does not.
pub open spec fn closes_itself(raw: Seq<u8>, from: int) -> bool {
    tag_close(raw, from).1
}

/// Whether the first cell of a fragment is an empty-element tag.
pub open spec fn self_closing_cell(raw: Seq<u8>) -> bool {
    match first_from(raw, bytes_of("<c"), 0) {
        None => false,
        Some(at) => closes_itself(raw, at + 2),
    }
}

/// Whether a fragment starts a cell that is an empty-element tag.
pub fn is_self_closing(raw: &[u8]) -> (closing: bool)
    ensures
        closing == self_closing_cell(raw@),
{
    proof {
        lemma_marker_lengths();
    }
    match find_subsequence(raw, "<c".as_bytes()) {
        None => false,
        Some(at) => {
            let mut j: usize = at + 2;
            while 1 < raw.len() - j
                invariant
                    at + 2 <= j <= raw.len(),
                    first_from(raw@, bytes_of("<c"), 0) == Some(at as int),
                    tag_close(raw@, at + 2).1 == tag_close(raw@, j as int).1,
                decreases raw.len() - j,
            {
                if raw[j] == 47 && raw[j + 1] == 62 {
                    return true;
                }
                if raw[j] == 62 {
                    return false;
                }
                j += 1;
            }
            false
        },
    }
}

/// The position that a fragment's `r` attribute names.
pub fn extract_r_attr(raw: &[u8]) -> (position: Result<(u32, u32), XlsxError>)
    ensures
        match position {
            Ok(p) => quoted_after(raw@, bytes_of("r=\"")) matches Some(r) && (
                p.0 as int,
                p.1 as int,
            ) == a1_position(r),
            Err(e) => quoted_after(raw@, bytes_of("r=\"")) is None && e@ == failure(
                ErrorKind::MissingPosition,
                "Missing r attribute"@,
            ),
        },
{
    match find_quoted(raw, "r=\"".as_bytes()) {
        Some(r) => parse_a1(r),
        None => Err(error(ErrorKind::MissingPosition, "Missing r attribute")),
    }
}

/// The value of a fragment's `t` attribute.
pub fn extract_t_attr(raw: &[u8]) -> (kind: Option<&[u8]>)
    ensures
        match kind {
            Some(t) => quoted_after(raw@, bytes_of("t=\"")) == Some(t@),
            None => quoted_after(raw@, bytes_of("t=\"")) is None,
        },
{
    find_quoted(raw, "t=\"".as_bytes())
}

/// The content of a fragment's `v` element.
pub fn extract_v_value(raw: &[u8]) -> (value: Option<&[u8]>)
    ensures
        match value {
            Some(v) => between(raw@, bytes_of("<v>"), bytes_of("</v>")) == Some(v@),
            None => between(raw@, bytes_of("<v>"), bytes_of("</v>")) is None,
        },
{
    find_between(raw, "<v>".as_bytes(), "</v>".as_bytes())
}

/// The content of a fragment's `t` element.
pub fn extract_inline_text(raw: &[u8]) -> (text: Option<&[u8]>)
    ensures
        match text {
            Some(t) => between(raw@, bytes_of("<t>"), bytes_of("</t>")) == Some(t@),
            None => between(raw@, bytes_of("<t>"), bytes_of("</t>")) is None,
        },
{
    find_between(raw, "<t>".as_bytes(), "</t>".as_bytes())
}

/// Whether reading a cell's value needs it to be read as a floating-point number:
/// it has no type of its own and is no integer.
pub open spec fn value_wants_float(value: Seq<u8>, kind: Option<Seq<u8>>) -> bool {
    &&& kind != Some(bytes_of("s"))
    &&& kind != Some(bytes_of("b"))
    &&& kind != Some(bytes_of("str"))
    &&& kind != Some(bytes_of("e"))
    &&& signed_value(value) is None
}

/// Whether `data` is what the value of a cell stands for under a type. `number` is
/// the value read as a floating-point number.
pub open spec fn fragment_value(
    value: Seq<u8>,
    kind: Option<Seq<u8>>,
    number: Option<Float>,
    data: Data,
) -> bool {
    if kind == Some(bytes_of("s")) {
        match unsigned_value(value, usize::MAX as int) {
            Some(index) => data == Data::SharedStringRef(index as usize),
            None => data matches Data::String(s) && s@ == lossy_text(value),
        }
    } else if kind == Some(bytes_of("b")) {
        data == Data::Bool(value != bytes_of("0"))
    } else if kind == Some(bytes_of("str")) {
        data matches Data::String(s) && s@ == lossy_text(value)
    } else if kind == Some(bytes_of("e")) {
        data matches Data::Error(e) && (error_code(e) == lossy_text(value) || e
            == CellErrorType::Value && (forall|other: CellErrorType|
            error_code(other) != lossy_text(value)))
    } else {
        match signed_value(value) {
            Some(n) => data == Data::Int(n as i64),
            None => match number {
                Some(float) => data == Data::Float(float),
                None => data matches Data::String(s) && s@ == lossy_text(value),
            },
        }
    }
}

/// Whether `data` is the value of the cell in a fragment: nothing for an
/// empty-element tag, else that of its `v` element, else the text of its `t`
/// element, else nothing.
pub open spec fn fragment_data(raw: Seq<u8>, number: Option<Float>, data: Data) -> bool {
    if self_closing_cell(raw) {
        data == Data::Empty
    } else {
        match between(raw, bytes_of("<v>"), bytes_of("</v>")) {
            Some(value) => fragment_value(
                value,
                quoted_after(raw, bytes_of("t=\"")),
                number,
                data,
            ),
            None => match between(raw, bytes_of("<t>"), bytes_of("</t>")) {
                Some(text) => data matches Data::String(s) && s@ == lossy_text(text),
                None => data == Data::Empty,
            },
        }
    }
}

proof fn lemma_kind_names()
    ensures
        bytes_of("s") != bytes_of("b"),
        bytes_of("s") != bytes_of("str"),
        bytes_of("s") != bytes_of("e"),
        bytes_of("b") != bytes_of("str"),
        bytes_of("b") != bytes_of("e"),
        bytes_of("str") != bytes_of("e"),
{
    crate::utils::lemma_type_names();
    crate::text::lemma_encoding_is_injective("s"@, "b"@);
    crate::text::lemma_encoding_is_injective("s"@, "str"@);
    crate::text::lemma_encoding_is_injective("s"@, "e"@);
    crate::text::lemma_encoding_is_injective("b"@, "str"@);
    crate::text::lemma_encoding_is_injective("b"@, "e"@);
    crate::text::lemma_encoding_is_injective("str"@, "e"@);
}

fn kind_is(kind: Option<&[u8]>, name: &str) -> (same: bool)
    ensures
        same == (kind matches Some(k) && k@ == bytes_of(name)),
{
    match kind {
        Some(k) => same_bytes(k, name.as_bytes()),
        None => false,
    }
}

/// The value of a fragment that has to be read as a floating-point number before the
/// fragment is parsed, if there is one.
pub open spec fn number_wanted(raw: Seq<u8>) -> Option<Seq<u8>> {
    match between(raw, bytes_of("<v>"), bytes_of("</v>")) {
        Some(value) => if !self_closing_cell(raw) && value_wants_float(
            value,
            quoted_after(raw, bytes_of("t=\"")),
        ) {
            Some(value)
        } else {
            None
        },
        None => None,
    }
}

/// The text of a fragment that has to be read as a floating-point number before
/// the fragment is parsed, if there is one.
pub fn fragment_number_text(raw: &[u8]) -> (text: Option<String>)
    ensures
        match text {
            Some(t) => number_wanted(raw@) matches Some(value) && t@ == lossy_text(value),
            None => number_wanted(raw@) is None,
        },
{
    if is_self_closing(raw) {
        return None;
    }
    let kind = extract_t_attr(raw);
    match extract_v_value(raw) {
        None => None,
        Some(value) => {
            if kind_is(kind, "s") || kind_is(kind, "b") || kind_is(kind, "str") || kind_is(
                kind,
                "e",
            ) || read_i64(value).is_some() {
                None
            } else {
                Some(decode_lossy(value))
            }
        },
    }
}

/// Parses the fragment of a cell. `number` is the text of `fragment_number_text`
/// read as a floating-point number, `None` where it is none.
pub fn parse_cell_fragment(raw: &[u8], number: Option<Float>) -> (cell: Result<
    Cell<Data>,
    XlsxError,
>)
    ensures
        match cell {
            Ok(c) => quoted_after(raw@, bytes_of("r=\"")) matches Some(r) && (
                c.position().0 as int,
                c.position().1 as int,
            ) == a1_position(r) && fragment_data(raw@, number, c.value()),
            Err(e) => quoted_after(raw@, bytes_of("r=\"")) is None && e@ == failure(
                ErrorKind::MissingPosition,
                "Missing r attribute"@,
            ),
        },
{
    let pos = match extract_r_attr(raw) {
        Ok(pos) => pos,
        Err(e) => {
            return Err(e);
        },
    };
    let kind = extract_t_attr(raw);
    proof {
        lemma_kind_names();
    }
    if is_self_closing(raw) {
        return Ok(Cell::new(pos, Data::Empty));
    }
    if let Some(value) = extract_v_value(raw) {
        let data = if kind_is(kind, "s") {
            match read_usize(value) {
                Some(index) => Data::SharedStringRef(index),
                None => Data::String(decode_lossy(value)),
            }
        } else if kind_is(kind, "b") {
            Data::Bool(!same_bytes(value, "0".as_bytes()))
        } else if kind_is(kind, "str") {
            Data::String(decode_lossy(value))
        } else if kind_is(kind, "e") {
            let text = decode_lossy(value);
            match CellErrorType::from_str(text.as_str()) {
                Ok(e) => Data::Error(e),
                Err(_) => Data::Error(CellErrorType::Value),
            }
        } else {
            match read_i64(value) {
                Some(n) => Data::Int(n),
                None => match number {
                    Some(float) => Data::Float(float),
                    None => Data::String(decode_lossy(value)),
                },
            }
        };
        return Ok(Cell::new(pos, data));
    }
    match extract_inline_text(raw) {
        Some(text) => Ok(Cell::new(pos, Data::String(decode_lossy(text)))),
        None => Ok(Cell::new(pos, Data::Empty)),
    }
}

/// A cell to be parsed: its number, and where it starts and ends.
pub type Task = (usize, u32, u32);

/// The cells to be parsed, numbered from zero.
pub open spec fn tasks_of(boundaries: Seq<(u32, u32)>) -> Seq<Task> {
    Seq::new(boundaries.len(), |i: int| (i as usize, boundaries[i].0, boundaries[i].1))
}

/// Tasks in chunks of `size`, the last one with what is left.
pub open spec fn chunked(tasks: Seq<Task>, size: int) -> Seq<Seq<Task>>
    decreases tasks.len(),
{
    if tasks.len() == 0 || size <= 0 {
        Seq::empty()
    } else if tasks.len() <= size {
        seq![tasks]
    } else {
        seq![tasks.take(size)] + chunked(tasks.skip(size), size)
    }
}

/// Chunks as contracts speak of them.
pub open spec fn chunk_items(chunks: Seq<Vec<Task>>) -> Seq<Seq<Task>> {
    chunks.map_values(|chunk: Vec<Task>| chunk@)
}

/// The tasks of all chunks, one chunk after the other.
pub open spec fn all_tasks(chunks: Seq<Seq<Task>>) -> Seq<Task>
    decreases chunks.len(),
{
    if chunks.len() == 0 {
        Seq::empty()
    } else {
        chunks[0] + all_tasks(chunks.skip(1))
    }
}

/// The chunks hold every task once, in order; none is empty and none exceeds the
/// size.
pub proof fn law_chunks_hold_all_tasks(tasks: Seq<Task>, size: int)
    requires
        size > 0,
    ensures
        all_tasks(chunked(tasks, size)) == tasks,
        forall|c: int|
            0 <= c < chunked(tasks, size).len() ==> 0 < (#[trigger] chunked(
                tasks,
                size,
            )[c]).len() <= size,
    decreases tasks.len(),
{
    let chunks = chunked(tasks, size);
    if tasks.len() == 0 {
    } else if tasks.len() <= size {
        assert(chunks.skip(1) =~= Seq::<Seq<Task>>::empty());
        assert(all_tasks(chunks) == chunks[0] + all_tasks(chunks.skip(1)));
        assert(all_tasks(chunks.skip(1)) =~= Seq::<Task>::empty());
        assert(all_tasks(chunks) =~= tasks);
    } else {
        let rest = chunked(tasks.skip(size), size);
        law_chunks_hold_all_tasks(tasks.skip(size), size);
        assert(chunks == seq![tasks.take(size)] + rest);
        assert(chunks.skip(1) =~= rest);
        assert(all_tasks(chunks) =~= tasks);
        assert forall|c: int| 0 <= c < chunks.len() implies 0 < (#[trigger] chunks[c]).len()
            <= size by {
            if c > 0 {
                assert(chunks[c] == rest[c - 1]);
            }
        }
    }
}

/// Cuts the cells to be parsed into chunks of `size`.
pub fn chunk_tasks(boundaries: &Vec<(u32, u32)>, size: usize) -> (chunks: Vec<Vec<Task>>)
    requires
        size > 0,
    ensures
        chunk_items(chunks@) == chunked(tasks_of(boundaries@), size as int),
{
    let ghost tasks = tasks_of(boundaries@);
    let mut chunks: Vec<Vec<Task>> = Vec::new();
    let mut seq: usize = 0;
    assert(tasks.skip(0) =~= tasks);
    assert(chunk_items(chunks@) + chunked(tasks, size as int) =~= chunked(tasks, size as int));
    while seq < boundaries.len()
        invariant
            size > 0,
            seq <= boundaries.len(),
            tasks == tasks_of(boundaries@),
            chunk_items(chunks@) + chunked(tasks.skip(seq as int), size as int) == chunked(
                tasks,
                size as int,
            ),
        decreases boundaries.len() - seq,
    {
        let ghost start = seq as int;
        let ghost found = chunks@;
        let mut chunk: Vec<Task> = Vec::new();
        while seq < boundaries.len() && chunk.len() < size
            invariant
                0 <= start <= seq <= boundaries.len(),
                tasks == tasks_of(boundaries@),
                chunk.len() <= size,
                chunk@ == tasks.subrange(start, seq as int),
            decreases boundaries.len() - seq,
        {
            let (from, to) = boundaries[seq];
            chunk.push((seq, from, to));
            seq += 1;
            assert(chunk@ =~= tasks.subrange(start, seq as int));
        }
        proof {
            let left = tasks.skip(start);
            if left.len() <= size {
                assert(seq == boundaries.len());
                assert(chunk@ =~= left);
                assert(tasks.skip(seq as int) =~= Seq::<Task>::empty());
            } else {
                assert(chunk@ =~= left.take(size as int));
                assert(left.skip(size as int) =~= tasks.skip(seq as int));
            }
            assert(chunked(left, size as int) =~= seq![chunk@] + chunked(
                tasks.skip(seq as int),
                size as int,
            ));
        }
        chunks.push(chunk);
        proof {
            assert(chunk_items(chunks@) =~= chunk_items(found).push(chunk@));
            assert(chunk_items(chunks@) + chunked(tasks.skip(seq as int), size as int)
                =~= chunk_items(found) + (seq![chunk@] + chunked(
                tasks.skip(seq as int),
                size as int,
            )));
        }
    }
    assert(tasks.skip(seq as int) =~= Seq::<Task>::empty());
    assert(chunk_items(chunks@) + chunked(tasks.skip(seq as int), size as int) =~= chunk_items(
        chunks@,
    ));
    chunks
}

/// Whether `cell` is what a worker makes of a cell's fragment: the parsed cell, or
/// an empty cell at (0, 0) where the fragment names no position.
pub open spec fn parsed_cell(raw: Seq<u8>, number: Option<Float>, cell: Cell<Data>) -> bool {
    match quoted_after(raw, bytes_of("r=\"")) {
        Some(r) => (cell.position().0 as int, cell.position().1 as int) == a1_position(r)
            && fragment_data(raw, number, cell.value()),
        None => cell.position() == (0u32, 0u32) && cell.value() == Data::Empty,
    }
}

/// Parses one cell of a chunk.
pub fn parse_task(raw: &[u8], number: Option<Float>) -> (cell: Cell<Data>)
    ensures
        parsed_cell(raw@, number, cell),
{
    match parse_cell_fragment(raw, number) {
        Ok(cell) => cell,
        Err(_) => Cell::new((0, 0), Data::Empty),
    }
}

/// The fast reader: hands out parsed cells in the order of the sheet, whatever the
/// order in which the workers' batches arrive.
pub struct SheetFastReader {
    next_expected: usize,
    total_cells: usize,
    buffer: HashMap<usize, Cell<Data>>,
    pending: Vec<(usize, Cell<Data>)>,
    pending_idx: usize,
    strings: Arc<SharedStrings>,
    dimensions: Dimensions,
}

/// What the fast reader can hand out without waiting.
#[derive(Debug)]
pub enum Ready {
    /// The next cell.
    Cell(Cell<Data>),
    /// All cells were handed out.
    Finished,
    /// The next cell has not arrived.
    Waiting,
}

/// Whether the cells of a batch are numbered one after the other.
pub open spec fn consecutive(batch: Seq<(usize, Cell<Data>)>) -> bool {
    forall|k: int| 0 <= k < batch.len() ==> (#[trigger] batch[k]).0 == batch[0].0 + k
}

/// The cells of a batch by their numbers.
pub open spec fn batch_map(batch: Seq<(usize, Cell<Data>)>) -> Map<usize, Cell<Data>> {
    Map::new(
        |n: usize| exists|k: int| 0 <= k < batch.len() && (#[trigger] batch[k]).0 == n,
        |n: usize| batch[n - batch[0].0].1,
    )
}

impl SheetFastReader {
    /// The cells that have arrived and were not handed out, by their numbers.
    pub closed spec fn held(&self) -> Map<usize, Cell<Data>> {
        Map::new(
            |n: usize|
                self.buffer@.contains_key(n) || self.next_expected <= n < self.next_expected
                    + self.waiting_count(),
            |n: usize|
                if self.next_expected <= n < self.next_expected + self.waiting_count() {
                    self.pending[n - self.next_expected + self.pending_idx].1
                } else {
                    self.buffer@[n]
                },
        )
    }

    spec fn waiting_count(&self) -> int {
        self.pending.len() - self.pending_idx
    }

    /// The number of the cell that is handed out next.
    pub closed spec fn next(&self) -> int {
        self.next_expected as int
    }

    /// The number of cells of the sheet.
    pub closed spec fn total(&self) -> int {
        self.total_cells as int
    }

    /// The shared strings of the workbook.
    pub closed spec fn texts(&self) -> Seq<Seq<char>> {
        self.strings@
    }

    /// The used range that the sheet states.
    pub closed spec fn range(&self) -> ((int, int), (int, int)) {
        corners(self.dimensions)
    }

    /// Whether the cells that have arrived are in good order.
    pub closed spec fn wf(&self) -> bool {
        &&& self.pending_idx <= self.pending.len()
        &&& forall|k: int|
            self.pending_idx <= k < self.pending.len() ==> (#[trigger] self.pending[k]).0
                == self.next_expected + (k - self.pending_idx)
        &&& forall|n: usize| #[trigger]
            self.buffer@.contains_key(n) ==> self.next_expected + self.waiting_count() <= n
        &&& self.next_expected <= self.total_cells
        &&& self.strings.wf()
        &&& self.dimensions.end.0 < u32::MAX
        &&& self.dimensions.end.1 < u32::MAX
    }

    /// A reader of `total_cells` cells of which none has arrived.
    pub fn with_cells(
        total_cells: usize,
        strings: Arc<SharedStrings>,
        dimensions: Dimensions,
    ) -> (reader: Self)
        requires
            strings.wf(),
            dimensions.end.0 < u32::MAX,
            dimensions.end.1 < u32::MAX,
        ensures
            reader.wf(),
            reader.next() == 0,
            reader.total() == total_cells,
            reader.held() == Map::<usize, Cell<Data>>::empty(),
            reader.texts() == strings@,
            reader.range() == corners(dimensions),
    {
        let reader = SheetFastReader {
            next_expected: 0,
            total_cells,
            buffer: HashMap::new(),
            pending: Vec::new(),
            pending_idx: 0,
            strings,
            dimensions,
        };
        assert(reader.held() =~= Map::<usize, Cell<Data>>::empty());
        reader
    }

    pub fn dimensions(&self) -> (dimensions: Dimensions)
        ensures
            corners(dimensions) == self.range(),
            self.wf() ==> dimensions.end.0 < u32::MAX && dimensions.end.1 < u32::MAX,
    {
        self.dimensions
    }

    /// The shared strings of the workbook.
    pub fn strings(&self) -> (strings: &Arc<SharedStrings>)
        ensures
            strings@ == self.texts(),
            self.wf() ==> strings.wf(),
    {
        &self.strings
    }

    pub fn total_cells(&self) -> (n: usize)
        ensures
            n == self.total(),
    {
        self.total_cells
    }

    /// Hands out the next cell if it has arrived.
    pub fn next_ready(&mut self) -> (ready: Ready)
        requires
            old(self).wf(),
        ensures
            final(self).wf(),
            final(self).total() == old(self).total(),
            final(self).texts() == old(self).texts(),
            final(self).range() == old(self).range(),
            match ready {
                Ready::Finished => old(self).next() >= old(self).total() && final(self).next()
                    == old(self).next() && final(self).held() == old(self).held(),
                Ready::Waiting => old(self).next() < old(self).total()
                    && !old(self).held().contains_key(old(self).next() as usize)
                    && final(self).next() == old(self).next()
                    && final(self).held() == old(self).held(),
                Ready::Cell(cell) => old(self).next() < old(self).total()
                    && old(self).held().contains_key(old(self).next() as usize)
                    && cell == old(self).held()[old(self).next() as usize]
                    && final(self).next() == old(self).next() + 1
                    && final(self).held() == old(self).held().remove(old(self).next() as usize),
            },
    {
        if self.next_expected >= self.total_cells {
            return Ready::Finished;
        }
        if self.pending_idx < self.pending.len() {
            let mut cell: Cell<Data> = Cell::new((0, 0), Data::Empty);
            let index: usize = self.pending_idx;
            core::mem::swap(&mut cell, &mut self.pending[index].1);
            self.pending_idx += 1;
            self.next_expected += 1;
            assert(self.held() =~= old(self).held().remove(old(self).next_expected));
            return Ready::Cell(cell);
        }
        match self.buffer.remove(&self.next_expected) {
            Some(cell) => {
                self.next_expected += 1;
                assert(self.held() =~= old(self).held().remove(old(self).next_expected));
                Ready::Cell(cell)
            },
            None => {
                assert(self.held() =~= old(self).held());
                Ready::Waiting
            },
        }
    }

    /// Takes a batch that a worker has parsed, while the reader is waiting. Hands
    /// out the next cell if the batch brought it.
    pub fn offer(&mut self, batch: Vec<(usize, Cell<Data>)>) -> (cell: Option<Cell<Data>>)
        requires
            old(self).wf(),
            old(self).next() < old(self).total(),
            !old(self).held().contains_key(old(self).next() as usize),
            consecutive(batch@),
            forall|k: int|
                0 <= k < batch.len() ==> old(self).next() <= (#[trigger] batch[k]).0
                    && !old(self).held().contains_key(batch[k].0),
        ensures
            final(self).wf(),
            final(self).total() == old(self).total(),
            final(self).texts() == old(self).texts(),
            final(self).range() == old(self).range(),
            ({
                let arrived = old(self).held().union_prefer_right(batch_map(batch@));
                let wanted = old(self).next() as usize;
                match cell {
                    Some(c) => arrived.contains_key(wanted) && c == arrived[wanted]
                        && final(self).next() == old(self).next() + 1
                        && final(self).held() == arrived.remove(
                        wanted,
                    ),
                    None => !arrived.contains_key(wanted)
                        && final(self).next() == old(self).next() && final(self).held() == arrived,
                }
            }),
    {
        let ghost before = self.held();
        let ghost arrived = before.union_prefer_right(batch_map(batch@));
        if batch.len() == 0 {
            assert(arrived =~= before);
            return None;
        }
        assert(self.waiting_count() == 0) by {
            if self.waiting_count() > 0 {
                assert(self.held().contains_key(self.next_expected));
            }
        }
        if batch[0].0 == self.next_expected {
            let mut batch = batch;
            let ghost items = batch@;
            let mut cell: Cell<Data> = Cell::new((0, 0), Data::Empty);
            core::mem::swap(&mut cell, &mut batch[0].1);
            self.pending = batch;
            self.pending_idx = 1;
            self.next_expected += 1;
            proof {
                assert(items[0].0 == old(self).next_expected);
                assert forall|n: usize| #[trigger] self.buffer@.contains_key(n) implies
                    self.next_expected + self.waiting_count() <= n by {
                    assert(before.contains_key(n));
                    if n < self.next_expected + self.waiting_count() {
                        let k = n - items[0].0;
                        assert(items[k].0 == n);
                    }
                }
                assert forall|n: usize| self.held().contains_key(n) == #[trigger] arrived.remove(
                    old(self).next_expected,
                ).contains_key(n) by {
                    if old(self).next_expected < n < old(self).next_expected + items.len() {
                        let k = n - items[0].0;
                        assert(items[k].0 == n);
                    }
                    if batch_map(items).contains_key(n) {
                        let k = choose|k: int| 0 <= k < items.len() && (#[trigger] items[k]).0 == n;
                        assert(items[k].0 == items[0].0 + k);
                    }
                }
                assert(self.held() =~= arrived.remove(old(self).next_expected));
                assert(batch_map(items).contains_key(old(self).next_expected));
            }
            return Some(cell);
        }
        let ghost items = batch@;
        let mut batch = batch;
        let mut k: usize = 0;
        while k < batch.len()
            invariant
                k <= batch.len(),
                batch.len() == items.len(),
                consecutive(items),
                forall|j: int| k <= j < batch.len() ==> batch@[j] == items[j],
                forall|j: int|
                    0 <= j < items.len() ==> self.next_expected <= (#[trigger] items[j]).0,
                self.pending == old(self).pending,
                self.pending_idx == old(self).pending_idx,
                self.next_expected == old(self).next_expected,
                self.total_cells == old(self).total_cells,
                self.strings == old(self).strings,
                self.dimensions == old(self).dimensions,
                self.buffer@ == old(self).buffer@.union_prefer_right(
                    batch_map(items.take(k as int)),
                ),
            decreases batch.len() - k,
        {
            let mut cell: Cell<Data> = Cell::new((0, 0), Data::Empty);
            let seq: usize = batch[k].0;
            core::mem::swap(&mut cell, &mut batch[k].1);
            let ghost buffer = self.buffer@;
            self.buffer.insert(seq, cell);
            k += 1;
            proof {
                lemma_batch_map_grows(items, k - 1);
                assert(self.buffer@ =~= old(self).buffer@.union_prefer_right(
                    batch_map(items.take(k as int)),
                ));
            }
        }
        proof {
            assert(items.take(k as int) =~= items);
            assert(!batch_map(items).contains_key(self.next_expected)) by {
                if batch_map(items).contains_key(self.next_expected) {
                    let j = choose|j: int|
                        0 <= j < items.len() && (#[trigger] items[j]).0 == self.next_expected;
                    assert(items[0].0 <= items[j].0);
                }
            }
            assert(self.held() =~= arrived);
        }
        None
    }
}

proof fn lemma_batch_map_grows(batch: Seq<(usize, Cell<Data>)>, k: int)
    requires
        consecutive(batch),
        0 <= k < batch.len(),
    ensures
        batch_map(batch.take(k + 1)) == batch_map(batch.take(k)).insert(batch[k].0, batch[k].1),
{
    let small = batch.take(k);
    let large = batch.take(k + 1);
    assert forall|n: usize| #[trigger] batch_map(large).contains_key(n) == batch_map(small).insert(
        batch[k].0,
        batch[k].1,
    ).contains_key(n) by {
        if batch_map(large).contains_key(n) {
            let j = choose|j: int| 0 <= j < large.len() && (#[trigger] large[j]).0 == n;
            if j < k {
                assert(small[j].0 == n);
            }
        }
        if batch_map(small).contains_key(n) {
            let j = choose|j: int| 0 <= j < small.len() && (#[trigger] small[j]).0 == n;
            assert(large[j].0 == n);
        }
        assert(large[k].0 == batch[k].0);
    }
    assert forall|n: usize| #[trigger] batch_map(large).contains_key(n) implies batch_map(large)[n]
        == batch_map(small).insert(batch[k].0, batch[k].1)[n] by {
        let j = choose|j: int| 0 <= j < large.len() && (#[trigger] large[j]).0 == n;
        assert(batch[j].0 == batch[0].0 + j);
        assert(batch[k].0 == batch[0].0 + k);
    }
    assert(batch_map(large) =~= batch_map(small).insert(batch[k].0, batch[k].1));
}

/// The cells that are handed out from number `next` on, where `held` have arrived
/// and `arrival` is what is yet to arrive, in that order.
pub open spec fn handed_out(
    next: usize,
    total: usize,
    held: Map<usize, Cell<Data>>,
    arrival: Seq<Map<usize, Cell<Data>>>,
) -> Seq<Cell<Data>>
    decreases total - next + arrival.len(),
{
    if next >= total {
        Seq::empty()
    } else if held.contains_key(next) {
        seq![held[next]] + handed_out((next + 1) as usize, total, held.remove(next), arrival)
    } else if arrival.len() == 0 {
        Seq::empty()
    } else {
        handed_out(next, total, held.union_prefer_right(arrival[0]), arrival.skip(1))
    }
}

/// Whether a cell of the sheet has arrived or is yet to arrive.
pub open spec fn comes(
    n: usize,
    held: Map<usize, Cell<Data>>,
    arrival: Seq<Map<usize, Cell<Data>>>,
) -> bool {
    held.contains_key(n) || exists|b: int|
        0 <= b < arrival.len() && (#[trigger] arrival[b]).contains_key(n)
}

/// Whether every cell of a batch is the cell of the sheet with its number.
pub open spec fn of_sheet(batch: Map<usize, Cell<Data>>, sheet: Seq<Cell<Data>>) -> bool {
    forall|n: usize| #[trigger] batch.contains_key(n) ==> n < sheet.len()
        && batch[n] == sheet[n as int]
}

/// Whatever the order in which the batches arrive, the cells are handed out in the
/// order of the sheet, each once.
pub proof fn law_order_is_restored(
    sheet: Seq<Cell<Data>>,
    next: usize,
    total: usize,
    held: Map<usize, Cell<Data>>,
    arrival: Seq<Map<usize, Cell<Data>>>,
)
    requires
        total == sheet.len(),
        next <= total,
        of_sheet(held, sheet),
        forall|b: int| 0 <= b < arrival.len() ==> of_sheet(#[trigger] arrival[b], sheet),
        forall|n: usize| next <= n < total ==> #[trigger] comes(n, held, arrival),
    ensures
        handed_out(next, total, held, arrival) == sheet.subrange(next as int, total as int),
    decreases total - next + arrival.len(),
{
    if next >= total {
        assert(sheet.subrange(next as int, total as int) =~= Seq::<Cell<Data>>::empty());
    } else if held.contains_key(next) {
        let rest = held.remove(next);
        assert forall|n: usize| next + 1 <= n < total implies #[trigger] comes(
            n,
            rest,
            arrival,
        ) by {
            assert(comes(n, held, arrival));
        }
        law_order_is_restored(sheet, (next + 1) as usize, total, rest, arrival);
        assert(sheet.subrange(next as int, total as int) =~= seq![sheet[next as int]]
            + sheet.subrange(next + 1, total as int));
    } else {
        assert(comes(next, held, arrival));
        let more = held.union_prefer_right(arrival[0]);
        let later = arrival.skip(1);
        assert(of_sheet(arrival[0], sheet));
        assert forall|b: int| 0 <= b < later.len() implies of_sheet(
            #[trigger] later[b],
            sheet,
        ) by {
            assert(later[b] == arrival[b + 1]);
        }
        assert forall|n: usize| next <= n < total implies #[trigger] comes(n, more, later) by {
            assert(comes(n, held, arrival));
            if !held.contains_key(n) {
                let b = choose|b: int|
                    0 <= b < arrival.len() && (#[trigger] arrival[b]).contains_key(n);
                if b > 0 {
                    assert(later[b - 1] == arrival[b]);
                }
            }
        }
        law_order_is_restored(sheet, next, total, more, later);
    }
}

/// Batches as contracts speak of them.
pub open spec fn batch_maps(arrival: Seq<Vec<(usize, Cell<Data>)>>) -> Seq<Map<usize, Cell<Data>>> {
    arrival.map_values(|batch: Vec<(usize, Cell<Data>)>| batch_map(batch@))
}

/// Whether the batches that are yet to arrive are in good order: the cells of each
/// are numbered one after the other, and no cell comes twice.
pub open spec fn arrives_well(
    next: int,
    held: Map<usize, Cell<Data>>,
    arrival: Seq<Vec<(usize, Cell<Data>)>>,
) -> bool {
    &&& forall|b: int| 0 <= b < arrival.len() ==> consecutive((#[trigger] arrival[b])@)
    &&& forall|b: int, k: int|
        0 <= b < arrival.len() && 0 <= k < arrival[b].len() ==> next <= (#[trigger] arrival[b][k]).0
            && !held.contains_key(arrival[b][k].0)
    &&& forall|b: int, k: int, c: int, l: int|
        0 <= b < c < arrival.len() && 0 <= k < arrival[b].len() && 0 <= l < arrival[c].len()
            ==> (#[trigger] arrival[b][k]).0 != (#[trigger] arrival[c][l]).0
}

impl SheetFastReader {
    /// Hands out the next cell, taking batches from `arrival` for as long as it is
    /// missing; `None` after the last cell, or where no batch brings the next one.
    pub fn next_cell(&mut self, arrival: &mut Vec<Vec<(usize, Cell<Data>)>>) -> (cell: Option<
        Cell<Data>,
    >)
        requires
            old(self).wf(),
            arrives_well(old(self).next(), old(self).held(), old(arrival)@),
        ensures
            final(self).wf(),
            final(self).total() == old(self).total(),
            final(self).texts() == old(self).texts(),
            final(self).range() == old(self).range(),
            arrives_well(final(self).next(), final(self).held(), final(arrival)@),
            ({
                let due = handed_out(
                    old(self).next() as usize,
                    old(self).total() as usize,
                    old(self).held(),
                    batch_maps(old(arrival)@),
                );
                let left = handed_out(
                    final(self).next() as usize,
                    final(self).total() as usize,
                    final(self).held(),
                    batch_maps(final(arrival)@),
                );
                match cell {
                    Some(c) => due == seq![c] + left,
                    None => due.len() == 0 && left.len() == 0,
                }
            }),
    {
        match self.next_ready() {
            Ready::Finished => {
                return None;
            },
            Ready::Cell(cell) => {
                return Some(cell);
            },
            Ready::Waiting => {},
        }
        while arrival.len() > 0
            invariant
                self.wf(),
                self.total() == old(self).total(),
                self.texts() == old(self).texts(),
                self.range() == old(self).range(),
                self.next() < self.total() <= usize::MAX,
                !self.held().contains_key(self.next() as usize),
                arrives_well(self.next(), self.held(), arrival@),
                handed_out(
                    old(self).next() as usize,
                    old(self).total() as usize,
                    old(self).held(),
                    batch_maps(old(arrival)@),
                ) == handed_out(
                    self.next() as usize,
                    self.total() as usize,
                    self.held(),
                    batch_maps(arrival@),
                ),
            decreases arrival.len(),
        {
            let ghost queue = arrival@;
            let ghost before = self.held();
            let ghost number = self.next();
            let batch = arrival.remove(0);
            let ghost items = batch@;
            assert(batch == queue[0]);
            assert(arrival@ =~= queue.skip(1));
            assert forall|k: int| 0 <= k < items.len() implies number <= (#[trigger] items[k]).0
                && !before.contains_key(items[k].0) by {
                assert(queue[0][k] == items[k]);
            }
            let found = self.offer(batch);
            proof {
                assert(batch_maps(arrival@) =~= batch_maps(queue).skip(1));
                assert(batch_maps(queue)[0] == batch_map(items));
                lemma_arrival_goes_on(number, before, queue, self.next(), self.held());
                let wanted = number as usize;
                let total = self.total() as usize;
                let arrived = before.union_prefer_right(batch_map(items));
                let later = batch_maps(queue).skip(1);
                assert(handed_out(wanted, total, before, batch_maps(queue)) == handed_out(
                    wanted,
                    total,
                    arrived,
                    later,
                ));
                if found is Some {
                    assert(handed_out(wanted, total, arrived, later) == seq![arrived[wanted]]
                        + handed_out((wanted + 1) as usize, total, arrived.remove(wanted), later));
                }
            }
            match found {
                Some(cell) => {
                    return Some(cell);
                },
                None => {},
            }
        }
        None
    }
}

proof fn lemma_arrival_goes_on(
    next: int,
    held: Map<usize, Cell<Data>>,
    queue: Seq<Vec<(usize, Cell<Data>)>>,
    next_after: int,
    held_after: Map<usize, Cell<Data>>,
)
    requires
        queue.len() > 0,
        0 <= next <= usize::MAX,
        arrives_well(next, held, queue),
        ({
            let arrived = held.union_prefer_right(batch_map(queue[0]@));
            ||| next_after == next && held_after == arrived
            ||| next_after == next + 1 && arrived.contains_key(next as usize) && held_after
                == arrived.remove(next as usize)
        }),
        !held.contains_key(next as usize),
    ensures
        arrives_well(next_after, held_after, queue.skip(1)),
{
    let rest = queue.skip(1);
    let first = queue[0]@;
    assert forall|b: int| 0 <= b < rest.len() implies consecutive((#[trigger] rest[b])@) by {
        assert(rest[b] == queue[b + 1]);
    }
    assert forall|b: int, k: int| 0 <= b < rest.len() && 0 <= k < rest[b].len() implies next_after
        <= (#[trigger] rest[b][k]).0 && !held_after.contains_key(rest[b][k].0) by {
        assert(rest[b][k] == queue[b + 1][k]);
        let n = rest[b][k].0;
        if batch_map(first).contains_key(n) {
            let j = choose|j: int| 0 <= j < first.len() && (#[trigger] first[j]).0 == n;
            assert(queue[0][j].0 != queue[b + 1][k].0);
        }
        if next_after == next + 1 && n == next {
            assert(batch_map(first).contains_key(n));
        }
    }
    assert forall|b: int, k: int, c: int, l: int|
        0 <= b < c < rest.len() && 0 <= k < rest[b].len() && 0 <= l < rest[c].len() implies (
    #[trigger] rest[b][k]).0 != (#[trigger] rest[c][l]).0 by {
        assert(rest[b][k] == queue[b + 1][k]);
        assert(rest[c][l] == queue[c + 1][l]);
    }
}

/// The parts of a sheet that the workers need: its bytes and the chunks of cells.
#[derive(Debug)]
pub struct SheetTasks {
    pub xml: Vec<u8>,
    pub chunks: Vec<Vec<Task>>,
}

/// The used range that a sheet states, (0, 0) to (0, 0) where it is malformed.
pub open spec fn fast_range(xml: Seq<u8>) -> ((int, int), (int, int)) {
    match scanned_dimension(xml) {
        Ok(range) => range,
        Err(_) => ((0, 0), (0, 0)),
    }
}

/// The bytes of the picked sheet, or the first that goes wrong of listing the
/// sheets, loading the shared strings, loading the number formats, picking the
/// sheet and unpacking it.
pub open spec fn fast_sheet(
    archive: Seq<u8>,
    sheet_name: Option<Seq<char>>,
    sheet_idx: Option<usize>,
) -> Result<Seq<u8>, Failure> {
    match workbook_sheets(archive) {
        Err(e) => Err(e),
        Ok(sheets) => match workbook_strings(archive, true) {
            Err(e) => Err(e),
            Ok(_) => match workbook_formats(archive) {
                Err(e) => Err(e),
                Ok(_) => match picked_sheet(sheets, sheet_name, sheet_idx) {
                    Err(e) => Err(e),
                    Ok(path) => match part_bytes(archive_entry(archive, path, PIECE)) {
                        Err(e) => Err(e),
                        Ok(bytes) => if bytes.len() > u32::MAX {
                            Err(failure(ErrorKind::TooLong, "Worksheet exceeds 4 GiB"@))
                        } else {
                            Ok(bytes)
                        },
                    },
                },
            },
        },
    }
}

/// A reader for a sheet that is unpacked, and the work it has to wait for.
pub fn plan_sheet(xml: Vec<u8>, strings: Arc<SharedStrings>) -> (plan: (
    SheetFastReader,
    SheetTasks,
))
    requires
        strings.wf(),
        xml.len() <= u32::MAX,
    ensures
        plan.0.wf(),
        plan.0.next() == 0,
        plan.0.total() == cell_ranges(xml@, 0).len(),
        plan.0.held() == Map::<usize, Cell<Data>>::empty(),
        plan.0.texts() == strings@,
        plan.0.range() == fast_range(xml@),
        plan.1.xml == xml,
        sheet_chunks(xml@, plan.1.chunks@),
{
    let dimensions = match parse_dimensions(xml.as_slice()) {
        Ok(dimensions) => dimensions,
        Err(_) => Dimensions { start: (0, 0), end: (0, 0) },
    };
    let boundaries = scan_cell_boundaries(xml.as_slice());
    let chunks = chunk_tasks(&boundaries, CHUNK_SIZE);
    assert(range_items(boundaries@).len() == boundaries.len());
    let reader = SheetFastReader::with_cells(boundaries.len(), strings, dimensions);
    (reader, SheetTasks { xml, chunks })
}

/// Whether chunks are those of the cells of a sheet.
pub open spec fn sheet_chunks(xml: Seq<u8>, chunks: Seq<Vec<Task>>) -> bool {
    exists|boundaries: Seq<(u32, u32)>| #[trigger]
        range_items(boundaries) == cell_ranges(xml, 0) && chunk_items(chunks) == chunked(
            tasks_of(boundaries),
            CHUNK_SIZE as int,
        )
}

impl SheetFastReader {
    /// Opens a workbook, given by the bytes of its archive, in fast mode and one of
    /// its sheets. The chunks of the result are to be parsed, by `parse_task`, and
    /// the results handed to the reader.
    pub fn new(archive: Vec<u8>, sheet_name: Option<&str>, sheet_idx: Option<usize>) -> (opened:
        Result<(Self, SheetTasks), XlsxError>)
        ensures
            match opened {
                Ok((reader, tasks)) => fast_sheet(
                    archive@,
                    name_text(sheet_name),
                    sheet_idx,
                ) == Ok::<Seq<u8>, Failure>(tasks.xml@) && reader.wf() && reader.next() == 0
                    && reader.total() == cell_ranges(tasks.xml@, 0).len() && reader.held()
                    == Map::<usize, Cell<Data>>::empty() && workbook_strings(archive@, true)
                    == Ok::<Seq<Seq<char>>, Failure>(reader.texts()) && reader.range()
                    == fast_range(tasks.xml@) && sheet_chunks(tasks.xml@, tasks.chunks@),
                Err(e) => fast_sheet(archive@, name_text(sheet_name), sheet_idx) == Err::<
                    Seq<u8>,
                    Failure,
                >(e@),
            },
    {
        let mut workbook = match XlsxWorkbook::open_fast(archive) {
            Ok(workbook) => workbook,
            Err(e) => {
                return Err(e);
            },
        };
        match workbook.init() {
            Ok(_) => {},
            Err(e) => {
                return Err(e);
            },
        }
        let path: String = match workbook.pick_sheet(sheet_name, sheet_idx) {
            Ok(path) => path.to_owned(),
            Err(e) => {
                return Err(e);
            },
        };
        let xml = match workbook.read_part(path.as_str()) {
            Ok(xml) => xml,
            Err(e) => {
                return Err(e);
            },
        };
        if xml.len() as u64 > u32::MAX as u64 {
            return Err(error(ErrorKind::TooLong, "Worksheet exceeds 4 GiB"));
        }
        proof {
            workbook.lemma_loaded();
        }
        let strings = match workbook.strings() {
            Some(strings) => strings.clone(),
            None => Arc::new(SharedStrings::new(Vec::new(), Vec::new())),
        };
        Ok(plan_sheet(xml, strings))
    }
}

/// The settings of the fast reader.
#[derive(Debug, Clone, Copy, PartialEq, Eq, Structural)]
pub struct FastConfig {
    /// The number of workers.
    pub parallelism: usize,
    /// The number of cells that a worker parses at a time.
    pub chunk_size: usize,
    /// The capacity of a queue is this many times the number of workers, and one.
    pub queue_cap_mul: usize,
    /// The bytes unpacked at a time.
    pub temp_size: usize,
    /// The bytes read at a time.
    pub buf_size: usize,
}

/// The settings that a user can ask for.
#[derive(Debug, Clone, Copy)]
pub struct FastOptions {
    pub parallelism: Option<usize>,
    pub chunk_size: Option<usize>,
    pub queue_cap: Option<usize>,
    pub temp_kb: Option<usize>,
    pub buf_kb: Option<usize>,
}

/// The workers for a machine with a number of cores.
pub open spec fn workers_for(cores: usize) -> int {
    if cores / 2 < 8 {
        (cores / 2) as int
    } else {
        8
    }
}

/// The workers that a user gets who asks for a number of them, or for none.
pub open spec fn workers_given(asked: Option<usize>, cores: usize) -> int {
    match asked {
        Some(v) => if v > cores {
            if cores > 2 {
                cores - 2
            } else {
                0
            }
        } else {
            v as int
        },
        None => workers_for(cores),
    }
}

/// The bytes that a user gets who asks for a number of kibibytes, or for none: a mebibyte.
pub open spec fn bytes_given(asked: Option<usize>) -> int {
    match asked {
        Some(kb) => kb * 1024,
        None => 1_048_576,
    }
}

/// Half the cores work, but no more than eight; a user who asks for no more workers than
/// there are cores gets them, and one who asks for more leaves two cores free.
pub proof fn law_workers(asked: usize, cores: usize)
    ensures
        workers_given(None, cores) == workers_for(cores),
        0 <= workers_for(cores) <= 8,
        2 * workers_for(cores) <= cores,
        workers_for(cores) == 8 || cores <= 2 * workers_for(cores) + 1,
        asked <= cores ==> workers_given(Some(asked), cores) == asked,
        asked > cores >= 2 ==> workers_given(Some(asked), cores) + 2 == cores,
        asked > cores && cores < 2 ==> workers_given(Some(asked), cores) == 0,
{
}

/// What a user asks for in kibibytes is given in bytes; asking for 1024 is asking for none.
pub proof fn law_bytes_given(kb: usize)
    ensures
        bytes_given(Some(kb)) == kb * 1024,
        bytes_given(Some(1024)) == bytes_given(None),
{
}

impl FastConfig {
    /// The settings for a machine with a number of cores: half as many workers, but
    /// not more than eight.
    pub fn for_cores(cores: usize) -> (config: Self)
        ensures
            config == (FastConfig {
                parallelism: workers_for(cores) as usize,
                chunk_size: CHUNK_SIZE,
                queue_cap_mul: 1,
                temp_size: 1_048_576,
                buf_size: 1_048_576,
            }),
    {
        FastConfig {
            parallelism: if cores / 2 < 8 {
                cores / 2
            } else {
                8
            },
            chunk_size: CHUNK_SIZE,
            queue_cap_mul: 1,
            temp_size: 1_048_576,
            buf_size: 1_048_576,
        }
    }

    /// The capacity of the queues.
    pub fn queue_capacity(&self) -> (capacity: usize)
        requires
            self.parallelism * self.queue_cap_mul < usize::MAX,
        ensures
            capacity == self.parallelism * self.queue_cap_mul + 1,
    {
        self.parallelism * self.queue_cap_mul + 1
    }
}

/// The settings that a user asks for, with those for the machine where the user asks
/// for none. More workers than cores become two fewer than cores.
pub fn build_fast_config(options: &FastOptions, cores: usize) -> (config: FastConfig)
    requires
        options.temp_kb matches Some(kb) ==> kb * 1024 <= usize::MAX,
        options.buf_kb matches Some(kb) ==> kb * 1024 <= usize::MAX,
    ensures
        config.parallelism == workers_given(options.parallelism, cores),
        config.chunk_size == (match options.chunk_size {
            Some(v) => v,
            None => CHUNK_SIZE,
        }),
        config.queue_cap_mul == (match options.queue_cap {
            Some(v) => v,
            None => 1,
        }),
        config.temp_size == bytes_given(options.temp_kb),
        config.buf_size == bytes_given(options.buf_kb),
{
    let mut config = FastConfig::for_cores(cores);
    if let Some(v) = options.parallelism {
        config.parallelism = if v > cores {
            cores.saturating_sub(2)
        } else {
            v
        };
    }
    if let Some(v) = options.chunk_size {
        config.chunk_size = v;
    }
    if let Some(v) = options.queue_cap {
        config.queue_cap_mul = v;
    }
    if let Some(kb) = options.temp_kb {
        config.temp_size = kb * 1024;
    }
    if let Some(kb) = options.buf_kb {
        config.buf_size = kb * 1024;
    }
    config
}

/// Both ways of reading open the same part of the archive: the bytes that are scanned are
/// those whose events are parsed, of the sheet that the name or the place picks.
pub proof fn law_both_ways_open_the_same_part(
    archive: Seq<u8>,
    sheet_name: Option<Seq<char>>,
    sheet_idx: Option<usize>,
)
    ensures
        match fast_sheet(archive, sheet_name, sheet_idx) {
            Ok(bytes) => workbook_sheets(archive) matches Ok(sheets) && (picked_sheet(
                sheets,
                sheet_name,
                sheet_idx,
            ) matches Ok(path) && crate::workbook::readable_bytes(
                archive_entry(archive, path, PIECE),
            ) == bytes && archive_entry(archive, path, PIECE) is Found) && workbook_strings(
                archive,
                true,
            ) is Ok && workbook_formats(archive) is Ok,
            Err(e) => workbook_sheets(archive) matches Ok(sheets) ==> workbook_strings(
                archive,
                true,
            ) is Ok && workbook_formats(archive) is Ok ==> (picked_sheet(
                sheets,
                sheet_name,
                sheet_idx,
            ) matches Ok(path) ==> archive_entry(archive, path, PIECE) matches crate::workbook::EntryItem::Found(
                bytes,
            ) ==> bytes.len() > u32::MAX),
        },
{
}

} // verus!
