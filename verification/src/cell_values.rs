//! What the raw text of a cell stands for: the same in both ways of reading a sheet.

use crate::excel_types::{error_code, law_error_codes_differ, CellErrorType, Data};
use crate::float::Float;
use crate::sheet_fast::{fragment_value, value_wants_float};
use crate::sheet_parser::{
    cell_type_name, cell_value, kind_text, type_of, CellType, ContentItem, RawCellItem,
};
use crate::text::{
    bytes_of, decimal, law_decimal_reads_back, law_integer_texts, law_unsigned_texts,
    lemma_encoding_is_injective, lossy_text, signed_value, unsigned_value, writes_integer,
};
use crate::typed_cols::value_item;
use crate::utils::{lemma_type_names, wants_float};
use vstd::prelude::*;
use vstd::utf8::*;

verus! {

/// The `t` attribute of a cell says what its text stands for: `s` a shared string, `b` a
/// boolean, `e` an error, `str` a text, `d` a date; and nothing else gives it a type.
pub proof fn law_cell_types(value: Seq<u8>)
    ensures
        type_of(value) == Some(CellType::Shared) <==> value == seq![115u8],
        type_of(value) == Some(CellType::Bool) <==> value == seq![98u8],
        type_of(value) == Some(CellType::Error) <==> value == seq![101u8],
        type_of(value) == Some(CellType::Str) <==> value == seq![115u8, 116, 114],
        type_of(value) == Some(CellType::Date) <==> value == seq![100u8],
        type_of(value) matches Some(kind) ==> encode_utf8(cell_type_name(kind)) == value,
{
    lemma_type_bytes();
}

pub(crate) proof fn lemma_type_bytes()
    ensures
        bytes_of("s") =~= seq![115u8],
        bytes_of("b") =~= seq![98u8],
        bytes_of("e") =~= seq![101u8],
        bytes_of("str") =~= seq![115u8, 116, 114],
        bytes_of("d") =~= seq![100u8],
        seq![115u8] != seq![98u8],
        seq![115u8] != seq![101u8],
        seq![115u8] != seq![100u8],
        seq![98u8] != seq![101u8],
        seq![98u8] != seq![100u8],
        seq![101u8] != seq![100u8],
        forall|b: u8| seq![115u8, 116, 114] != #[trigger] seq![b],
{
    reveal_strlit("s");
    reveal_strlit("b");
    reveal_strlit("e");
    reveal_strlit("str");
    reveal_strlit("d");
    is_ascii_chars_encode_utf8("s"@);
    is_ascii_chars_encode_utf8("b"@);
    is_ascii_chars_encode_utf8("e"@);
    is_ascii_chars_encode_utf8("str"@);
    is_ascii_chars_encode_utf8("d"@);
    assert(seq![115u8][0] != seq![98u8][0]);
    assert(seq![115u8][0] != seq![101u8][0]);
    assert(seq![115u8][0] != seq![100u8][0]);
    assert(seq![98u8][0] != seq![101u8][0]);
    assert(seq![98u8][0] != seq![100u8][0]);
    assert(seq![101u8][0] != seq![100u8][0]);
    assert forall|b: u8| seq![115u8, 116, 114] != #[trigger] seq![b] by {
        assert(seq![115u8, 116, 114].len() != seq![b].len());
    }
}

/// Whether bytes are an integer of 64 bits in decimal notation.
pub open spec fn is_integer(bytes: Seq<u8>) -> bool {
    exists|n: int| i64::MIN <= n <= i64::MAX && #[trigger] writes_integer(bytes, n)
}

/// Whether bytes are the index of a shared string in decimal notation.
pub open spec fn is_index(bytes: Seq<u8>) -> bool {
    exists|n: int|
        0 <= n <= usize::MAX && bytes[0] != 45 && #[trigger] writes_integer(bytes, n)
}

pub(crate) proof fn lemma_integer(bytes: Seq<u8>)
    ensures
        signed_value(bytes) is Some <==> is_integer(bytes),
        signed_value(bytes) matches Some(n) ==> writes_integer(bytes, n) && i64::MIN <= n
            <= i64::MAX,
        forall|n: int|
            i64::MIN <= n <= i64::MAX && #[trigger] writes_integer(bytes, n) ==> signed_value(bytes)
                == Some(n),
        unsigned_value(bytes, usize::MAX as int) is Some <==> is_index(bytes),
        unsigned_value(bytes, usize::MAX as int) matches Some(n) ==> 0 <= n <= usize::MAX,
        forall|n: int|
            0 <= n <= usize::MAX && bytes[0] != 45 && #[trigger] writes_integer(bytes, n)
                ==> unsigned_value(bytes, usize::MAX as int) == Some(n),
{
    if let Some(n) = signed_value(bytes) {
        law_integer_texts(bytes, n);
    }
    assert forall|n: int|
        i64::MIN <= n <= i64::MAX && #[trigger] writes_integer(bytes, n) implies signed_value(bytes)
        == Some(n) by {
        law_integer_texts(bytes, n);
    }
    if let Some(n) = unsigned_value(bytes, usize::MAX as int) {
        law_unsigned_texts(bytes, n, usize::MAX as int);
    }
    assert forall|n: int|
        0 <= n <= usize::MAX && bytes[0] != 45 && #[trigger] writes_integer(
            bytes,
            n,
        ) implies unsigned_value(bytes, usize::MAX as int) == Some(n) by {
        law_unsigned_texts(bytes, n, usize::MAX as int);
    }
}

/// Whether a value is a text.
pub open spec fn is_text(data: Data, text: Seq<char>) -> bool {
    data matches Data::String(s) && s@ == text
}

/// The value of a cell by its type and its text. Without a type, an integer is the
/// integer, in a date column the date with that serial; what is no integer is the
/// floating-point number that it was read as, or that date, and a text where it is none.
/// With a type, `0` is false and any other text of a boolean true; a shared string is the
/// one that the index names, and nothing where there is none; an error is the one with
/// that code, `#VALUE!` where none has it; and a text or a date is its text. A cell without
/// content is empty.
pub proof fn law_cell_values(
    cell: RawCellItem,
    strings: Seq<Seq<char>>,
    number: Option<Float>,
    data: Data,
)
    requires
        cell_value(cell, strings, number, data),
    ensures
        cell.content is Empty ==> data == Data::Empty,
        cell.content matches ContentItem::Raw(text) ==> {
            let bytes = encode_utf8(text);
            &&& cell.kind is None && !cell.is_date ==> {
                &&& forall|n: int|
                    i64::MIN <= n <= i64::MAX && #[trigger] writes_integer(bytes, n) ==> data
                        == Data::Int(n as i64)
                &&& !is_integer(bytes) ==> match number {
                    Some(x) => data == Data::Float(x),
                    None => is_text(data, text),
                }
            }
            &&& cell.kind is None && cell.is_date ==> {
                &&& forall|n: int|
                    i64::MIN <= n <= i64::MAX && #[trigger] writes_integer(bytes, n) ==> (
                    data matches Data::DateTime(date) && date.number() == Float::OfInt(n as i64)
                        && !date.from_1904())
                &&& !is_integer(bytes) ==> match number {
                    Some(x) => data matches Data::DateTime(date) && date.number() == x
                        && !date.from_1904(),
                    None => is_text(data, text),
                }
            }
            &&& cell.kind == Some(CellType::Bool) ==> data == Data::Bool(text != seq!['0'])
            &&& cell.kind == Some(CellType::Str) ==> is_text(data, text)
            &&& cell.kind == Some(CellType::Date) ==> (data matches Data::DateTimeIso(s) && s@
                == text)
            &&& cell.kind == Some(CellType::Error) ==> forall|e: CellErrorType|
                #[trigger] error_code(e) == text ==> data == Data::Error(e)
            &&& cell.kind == Some(CellType::Error) && (forall|e: CellErrorType|
                #[trigger] error_code(e) != text) ==> data == Data::Error(CellErrorType::Value)
        },
        cell.content matches ContentItem::Inline(text) ==> cell.kind != Some(CellType::Shared)
            ==> is_text(data, text),
        cell.kind == Some(CellType::Shared) && !(cell.content is Empty) ==> {
            let text = match cell.content {
                ContentItem::Raw(text) => text,
                ContentItem::Inline(text) => text,
                ContentItem::Empty => Seq::empty(),
            };
            let bytes = encode_utf8(text);
            &&& forall|i: int|
                0 <= i <= usize::MAX && bytes[0] != 45 && #[trigger] writes_integer(bytes, i)
                    ==> if i < strings.len() {
                    is_text(data, strings[i])
                } else {
                    data == Data::Empty
                }
            &&& !is_index(bytes) ==> is_text(data, text)
        },
{
    lemma_type_names();
    reveal_strlit("0");
    assert("0"@ =~= seq!['0']);
    match cell.content {
        ContentItem::Raw(text) => {
            lemma_integer(encode_utf8(text));
            if let Data::Error(e) = data {
                assert forall|other: CellErrorType| cell.kind == Some(CellType::Error)
                    && #[trigger] error_code(other) == text implies e == other by {
                    law_error_codes_differ(e, other);
                }
            }
        },
        ContentItem::Inline(text) => {
            lemma_integer(encode_utf8(text));
        },
        ContentItem::Empty => {},
    }
}

/// The decimal notation of an integer, in a cell without a type, is that integer.
pub proof fn law_number_cells(
    cell: RawCellItem,
    n: i64,
    strings: Seq<Seq<char>>,
    number: Option<Float>,
    data: Data,
)
    requires
        cell.kind is None,
        !cell.is_date,
        cell.content == ContentItem::Raw(decimal(n as int)),
        cell_value(cell, strings, number, data),
    ensures
        data == Data::Int(n),
{
    law_decimal_reads_back(n as int);
}

/// A text is to be read as a floating-point number exactly where its cell has no type and
/// it is no integer, in both ways of reading.
pub proof fn law_numbers_to_be_read(text: Seq<char>, kind: Option<CellType>)
    ensures
        wants_float(text, kind_text(kind)) <==> kind is None && !is_integer(encode_utf8(text)),
{
    lemma_type_names();
    lemma_integer(encode_utf8(text));
}

/// The value of a cell that is read by scanning, by the `t` attribute and the bytes of its
/// text. Every type but `s`, `b`, `str` and `e` is read as none is: an integer, else a
/// floating-point number, else a text.
pub proof fn law_scanned_values(
    value: Seq<u8>,
    kind: Option<Seq<u8>>,
    number: Option<Float>,
    data: Data,
)
    requires
        fragment_value(value, kind, number, data),
    ensures
        kind == Some(seq![98u8]) ==> data == Data::Bool(value != seq![48u8]),
        kind == Some(seq![115u8, 116, 114]) ==> is_text(data, lossy_text(value)),
        kind == Some(seq![115u8]) ==> {
            &&& forall|i: int|
                0 <= i <= usize::MAX && value[0] != 45 && #[trigger] writes_integer(value, i)
                    ==> data == Data::SharedStringRef(i as usize)
            &&& !is_index(value) ==> is_text(data, lossy_text(value))
        },
        kind == Some(seq![101u8]) ==> {
            &&& forall|e: CellErrorType|
                #[trigger] error_code(e) == lossy_text(value) ==> data == Data::Error(e)
            &&& (forall|e: CellErrorType| #[trigger] error_code(e) != lossy_text(value)) ==> data
                == Data::Error(CellErrorType::Value)
        },
        kind != Some(seq![98u8]) && kind != Some(seq![115u8, 116, 114]) && kind != Some(
            seq![115u8],
        ) && kind != Some(seq![101u8]) ==> {
            &&& forall|n: int|
                i64::MIN <= n <= i64::MAX && #[trigger] writes_integer(value, n) ==> data
                    == Data::Int(n as i64)
            &&& !is_integer(value) ==> match number {
                Some(x) => data == Data::Float(x),
                None => is_text(data, lossy_text(value)),
            }
            &&& value_wants_float(value, kind) <==> !is_integer(value)
        },
        kind == Some(seq![98u8]) || kind == Some(seq![115u8, 116, 114]) || kind == Some(
            seq![115u8],
        ) || kind == Some(seq![101u8]) ==> !value_wants_float(value, kind),
{
    lemma_type_bytes();
    lemma_integer(value);
    reveal_strlit("0");
    is_ascii_chars_encode_utf8("0"@);
    assert(bytes_of("0") =~= seq![48u8]);
    if let Data::Error(e) = data {
        assert forall|other: CellErrorType| kind == Some(seq![101u8]) && #[trigger] error_code(
            other,
        ) == lossy_text(value) implies e == other by {
            law_error_codes_differ(e, other);
        }
    }
}

/// A cell shows the same in both ways of reading a sheet: by its type and its text it has
/// the same entry in a column, an error is the same error, and a number, a boolean or a
/// text is so in both. Left out are dates, which the scan reads as the numbers and texts
/// that they are written as.
pub proof fn law_ways_of_reading_agree(
    text: Seq<char>,
    kind: Option<Seq<u8>>,
    number: Option<Float>,
    cell: RawCellItem,
    strings: Seq<Seq<char>>,
    scanned: Data,
    parsed: Data,
)
    requires
        kind != Some(seq![100u8]),
        cell.kind == (match kind {
            Some(k) => type_of(k),
            None => None,
        }),
        !cell.is_date,
        cell.content == ContentItem::Raw(text),
        lossy_text(encode_utf8(text)) == text,
        fragment_value(encode_utf8(text), kind, number, scanned),
        cell_value(cell, strings, number, parsed),
    ensures
        value_item(scanned, Some(strings)) == value_item(parsed, Some(strings)),
        scanned is Error || parsed is Error ==> scanned == parsed,
        scanned is Int || parsed is Int ==> scanned == parsed,
        scanned is Float || parsed is Float ==> scanned == parsed,
        scanned is Bool || parsed is Bool ==> scanned == parsed,
        scanned is SharedStringRef ==> parsed is String || parsed is Empty,
        scanned is String ==> parsed is String,
        !(scanned is SharedStringRef) && parsed is String ==> scanned is String,
{
    lemma_type_names();
    lemma_type_bytes();
    lemma_integer(encode_utf8(text));
    lemma_encoding_is_injective(text, "0"@);
    if let Data::Error(a) = scanned {
        if let Data::Error(b) = parsed {
            if error_code(a) == error_code(b) {
                law_error_codes_differ(a, b);
            }
        }
    }
}

} // verus!
