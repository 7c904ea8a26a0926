//! Pieces of the worksheet format that the readers share.

use crate::error::{error, error_with, failure, ErrorKind, Failure, XlsxError};
use crate::excel_types::{error_code, CellErrorType, Data, Dimensions};
use crate::float::Float;
use crate::text::{
    all_digits, ascii_lowered, byte_from, bytes_of, contains_char, copy_range, decimal_digits,
    decode_lossy, digits_value, find_byte, lossy_text, lowercase, parse_i64, same_bytes, same_text,
    signed_value,
};
use crate::xml::{
    events_after, Attribute, AttributeItem, Tag, XmlDocument, XmlEvent, XmlItem,
};
use std::collections::HashSet;
use vstd::prelude::*;
use vstd::utf8::*;

verus! {

broadcast use vstd::std_specs::hash::group_hash_axioms;

/// The sheets of a workbook in the order in which they were added, each with
/// its name and the path of its part.
#[derive(Debug)]
pub struct OrderdSheets {
    order: Vec<(String, String)>,
}

/// The place of the last entry with a name.
pub open spec fn last_named(entries: Seq<(Seq<char>, Seq<char>)>, name: Seq<char>) -> Option<int>
    decreases entries.len(),
{
    if entries.len() == 0 {
        None
    } else if entries.last().0 == name {
        Some(entries.len() - 1)
    } else {
        last_named(entries.drop_last(), name)
    }
}

impl View for OrderdSheets {
    type V = Seq<(Seq<char>, Seq<char>)>;

    closed spec fn view(&self) -> Seq<(Seq<char>, Seq<char>)> {
        self.order@.map_values(|entry: (String, String)| (entry.0@, entry.1@))
    }
}

impl OrderdSheets {
    pub fn new() -> (sheets: Self)
        ensures
            sheets@ == Seq::<(Seq<char>, Seq<char>)>::empty(),
    {
        let sheets = Self { order: Vec::new() };
        assert(sheets@ =~= Seq::<(Seq<char>, Seq<char>)>::empty());
        sheets
    }

    /// Adds a sheet at the end.
    pub fn insert(&mut self, name: String, path: String)
        ensures
            final(self)@ == old(self)@.push((name@, path@)),
    {
        self.order.push((name, path));
        assert(self@ =~= old(self)@.push((name@, path@)));
    }

    /// The path of the sheet with a name, the one added last where several have
    /// it.
    pub fn get_by_name(&self, name: &str) -> (path: Option<&String>)
        ensures
            match path {
                Some(p) => last_named(self@, name@) matches Some(i) && p@ == self@[i].1,
                None => last_named(self@, name@) is None,
            },
    {
        let mut n: usize = self.order.len();
        assert(self@.take(n as int) =~= self@);
        while n > 0
            invariant
                n <= self.order.len(),
                self@.len() == self.order.len(),
                last_named(self@, name@) == last_named(self@.take(n as int), name@),
            decreases n,
        {
            let ghost shown = self@.take(n as int);
            assert(shown.drop_last() =~= self@.take(n - 1));
            assert(shown.last() == self@[n - 1]);
            if same_text(self.order[n - 1].0.as_str(), name) {
                return Some(&self.order[n - 1].1);
            }
            n -= 1;
        }
        None
    }

    /// The path of the sheet at a place.
    pub fn get_by_idx(&self, idx: usize) -> (path: Option<&String>)
        ensures
            match path {
                Some(p) => idx < self@.len() && p@ == self@[idx as int].1,
                None => idx >= self@.len(),
            },
    {
        if idx < self.order.len() {
            Some(&self.order[idx].1)
        } else {
            None
        }
    }

    pub fn len(&self) -> (n: usize)
        ensures
            n == self@.len(),
    {
        self.order.len()
    }

    /// The names of the sheets in order.
    pub fn names(&self) -> (names: Vec<&str>)
        ensures
            names.len() == self@.len(),
            forall|i: int| 0 <= i < self@.len() ==> (#[trigger] names[i])@ == self@[i].0,
    {
        let mut names: Vec<&str> = Vec::with_capacity(self.order.len());
        let mut i: usize = 0;
        while i < self.order.len()
            invariant
                i <= self.order.len(),
                names.len() == i,
                self@.len() == self.order.len(),
                forall|j: int| 0 <= j < i ==> (#[trigger] names[j])@ == self@[j].0,
            decreases self.order.len() - i,
        {
            names.push(self.order[i].0.as_str());
            i += 1;
        }
        names
    }
}

/// A sheet that was just added is found under its name.
pub proof fn law_inserted_sheet_is_found(
    sheets: Seq<(Seq<char>, Seq<char>)>,
    name: Seq<char>,
    path: Seq<char>,
)
    ensures
        last_named(sheets.push((name, path)), name) == Some(sheets.len() as int),
        forall|other: Seq<char>|
            other != name ==> #[trigger] last_named(sheets.push((name, path)), other)
                == last_named(sheets, other),
{
    assert(sheets.push((name, path)).drop_last() =~= sheets);
}

/// Whether a number format, in lower case, shows a date or a time: it holds one
/// of the letters y, m, d, h, s and no digit placeholder.
pub open spec fn date_code(lower: Seq<char>) -> bool {
    (lower.contains('y') || lower.contains('m') || lower.contains('d') || lower.contains('h')
        || lower.contains('s')) && !lower.contains('0') && !lower.contains('#')
}

/// Whether a number format that is in lower case shows a date or a time.
pub fn is_lowercase_date_code(lower: &str) -> (date: bool)
    ensures
        date == date_code(lower@),
{
    (contains_char(lower, 'y') || contains_char(lower, 'm') || contains_char(lower, 'd')
        || contains_char(lower, 'h') || contains_char(lower, 's')) && !contains_char(lower, '0')
        && !contains_char(lower, '#')
}

/// Whether a number format shows a date or a time; large and small letters count
/// alike.
pub fn is_date_format_code(code: &str) -> (date: bool)
    ensures
        date == date_code(ascii_lowered(code@)),
{
    let code_lower = lowercase(code);
    is_lowercase_date_code(code_lower.as_str())
}

/// Whether a number format shows a date: a built-in one, or a custom one that
/// is known to.
pub open spec fn date_numfmt(num_fmt_id: u32, custom: Set<u32>) -> bool {
    14 <= num_fmt_id <= 22 || 45 <= num_fmt_id <= 47 || custom.contains(num_fmt_id)
}

pub fn is_date_numfmt(num_fmt_id: u32, custom_date_numfmts: &HashSet<u32>) -> (date: bool)
    ensures
        date == date_numfmt(num_fmt_id, custom_date_numfmts@),
{
    (14 <= num_fmt_id && num_fmt_id <= 22) || (45 <= num_fmt_id && num_fmt_id <= 47)
        || custom_date_numfmts.contains(&num_fmt_id)
}

/// Whether a character of a number format stands for a part of a date or a time: a
/// year, a month or minute, a day, an hour or a second.
pub open spec fn is_date_letter(c: char) -> bool {
    c == 'y' || c == 'Y' || c == 'm' || c == 'M' || c == 'd' || c == 'D' || c == 'h' || c == 'H'
        || c == 's' || c == 'S'
}

/// A number format shows a date or a time exactly where some character of it stands for
/// a part of one, large or small, and none for a digit.
pub proof fn law_date_codes(code: Seq<char>)
    ensures
        date_code(ascii_lowered(code)) <==> (exists|i: int|
            0 <= i < code.len() && is_date_letter(#[trigger] code[i])) && (forall|i: int|
            0 <= i < code.len() ==> #[trigger] code[i] != '0' && code[i] != '#'),
{
    let lower = ascii_lowered(code);
    assert forall|i: int| 0 <= i < code.len() implies lower[i] == crate::text::ascii_lower(
        #[trigger] code[i],
    ) by {}
    if date_code(lower) {
        let c = if lower.contains('y') {
            'y'
        } else if lower.contains('m') {
            'm'
        } else if lower.contains('d') {
            'd'
        } else if lower.contains('h') {
            'h'
        } else {
            's'
        };
        let i = choose|i: int| 0 <= i < lower.len() && lower[i] == c;
        assert(is_date_letter(code[i]));
        assert forall|j: int| 0 <= j < code.len() implies #[trigger] code[j] != '0' && code[j]
            != '#' by {
            assert(lower.contains(lower[j]));
        }
    }
    if (exists|i: int| 0 <= i < code.len() && is_date_letter(#[trigger] code[i])) && (forall|i: int|
        0 <= i < code.len() ==> #[trigger] code[i] != '0' && code[i] != '#') {
        let i = choose|i: int| 0 <= i < code.len() && is_date_letter(#[trigger] code[i]);
        assert(lower.contains(lower[i]));
        if lower.contains('0') {
            let j = choose|j: int| 0 <= j < lower.len() && lower[j] == '0';
            assert(code[j] == '0');
        }
        if lower.contains('#') {
            let j = choose|j: int| 0 <= j < lower.len() && lower[j] == '#';
            assert(code[j] == '#');
        }
    }
}

/// The codes of the number formats that every workbook has.
pub open spec fn built_in_code(id: u32) -> Option<Seq<char>> {
    if id == 0 {
        Some("General"@)
    } else if id == 1 {
        Some("0"@)
    } else if id == 2 {
        Some("0.00"@)
    } else if id == 3 {
        Some("#,##0"@)
    } else if id == 4 {
        Some("#,##0.00"@)
    } else if id == 9 {
        Some("0%"@)
    } else if id == 10 {
        Some("0.00%"@)
    } else if id == 11 {
        Some("0.00E+00"@)
    } else if id == 12 {
        Some("# ?/?"@)
    } else if id == 13 {
        Some("# ??/??"@)
    } else if id == 14 {
        Some("mm-dd-yy"@)
    } else if id == 15 {
        Some("d-mmm-yy"@)
    } else if id == 16 {
        Some("d-mmm"@)
    } else if id == 17 {
        Some("mmm-yy"@)
    } else if id == 18 {
        Some("h:mm AM/PM"@)
    } else if id == 19 {
        Some("h:mm:ss AM/PM"@)
    } else if id == 20 {
        Some("h:mm"@)
    } else if id == 21 {
        Some("h:mm:ss"@)
    } else if id == 22 {
        Some("m/d/yy h:mm"@)
    } else if id == 37 {
        Some("#,##0 ;(#,##0)"@)
    } else if id == 38 {
        Some("#,##0 ;[Red](#,##0)"@)
    } else if id == 39 {
        Some("#,##0.00;(#,##0.00)"@)
    } else if id == 40 {
        Some("#,##0.00;[Red](#,##0.00)"@)
    } else if id == 45 {
        Some("mm:ss"@)
    } else if id == 46 {
        Some("[h]:mm:ss"@)
    } else if id == 47 {
        Some("mmss.0"@)
    } else if id == 48 {
        Some("##0.0E+0"@)
    } else if id == 49 {
        Some("@"@)
    } else {
        None
    }
}

/// A number format that every workbook has shows a date or a time exactly where its code
/// does, whatever the custom ones are; so does `mmss.0`, whose digit stands for parts of a
/// second. Any other number format does exactly where it is among the custom ones.
pub proof fn law_number_formats(id: u32, custom: Set<u32>)
    ensures
        match built_in_code(id) {
            Some(code) => date_numfmt(id, custom) <==> date_code(ascii_lowered(code)) || code
                == "mmss.0"@ || custom.contains(id),
            None => date_numfmt(id, custom) <==> custom.contains(id),
        },
        14 <= id <= 22 || 45 <= id <= 47 ==> built_in_code(id) is Some && date_numfmt(id, custom),
{
    if let Some(code) = built_in_code(id) {
        law_date_codes(code);
        if id != 47 {
            lemma_tenths_code(id);
        }
    }
    if id == 0 {
        reveal_strlit("General");
    }
    if id == 1 {
        reveal_strlit("0");
        assert("0"@[0] == '0');
    }
    if id == 2 {
        reveal_strlit("0.00");
        assert("0.00"@[0] == '0');
    }
    if id == 3 {
        reveal_strlit("#,##0");
        assert("#,##0"@[0] == '#');
    }
    if id == 4 {
        reveal_strlit("#,##0.00");
        assert("#,##0.00"@[0] == '#');
    }
    if id == 9 {
        reveal_strlit("0%");
        assert("0%"@[0] == '0');
    }
    if id == 10 {
        reveal_strlit("0.00%");
        assert("0.00%"@[0] == '0');
    }
    if id == 11 {
        reveal_strlit("0.00E+00");
        assert("0.00E+00"@[0] == '0');
    }
    if id == 12 {
        reveal_strlit("# ?/?");
        assert("# ?/?"@[0] == '#');
    }
    if id == 13 {
        reveal_strlit("# ??/??");
        assert("# ??/??"@[0] == '#');
    }
    if id == 14 {
        reveal_strlit("mm-dd-yy");
        assert(is_date_letter("mm-dd-yy"@[0]));
    }
    if id == 15 {
        reveal_strlit("d-mmm-yy");
        assert(is_date_letter("d-mmm-yy"@[0]));
    }
    if id == 16 {
        reveal_strlit("d-mmm");
        assert(is_date_letter("d-mmm"@[0]));
    }
    if id == 17 {
        reveal_strlit("mmm-yy");
        assert(is_date_letter("mmm-yy"@[0]));
    }
    if id == 18 {
        reveal_strlit("h:mm AM/PM");
        assert(is_date_letter("h:mm AM/PM"@[0]));
    }
    if id == 19 {
        reveal_strlit("h:mm:ss AM/PM");
        assert(is_date_letter("h:mm:ss AM/PM"@[0]));
    }
    if id == 20 {
        reveal_strlit("h:mm");
        assert(is_date_letter("h:mm"@[0]));
    }
    if id == 21 {
        reveal_strlit("h:mm:ss");
        assert(is_date_letter("h:mm:ss"@[0]));
    }
    if id == 22 {
        reveal_strlit("m/d/yy h:mm");
        assert(is_date_letter("m/d/yy h:mm"@[0]));
    }
    if id == 37 {
        reveal_strlit("#,##0 ;(#,##0)");
        assert("#,##0 ;(#,##0)"@[0] == '#');
    }
    if id == 38 {
        reveal_strlit("#,##0 ;[Red](#,##0)");
        assert("#,##0 ;[Red](#,##0)"@[0] == '#');
    }
    if id == 39 {
        reveal_strlit("#,##0.00;(#,##0.00)");
        assert("#,##0.00;(#,##0.00)"@[0] == '#');
    }
    if id == 40 {
        reveal_strlit("#,##0.00;[Red](#,##0.00)");
        assert("#,##0.00;[Red](#,##0.00)"@[0] == '#');
    }
    if id == 45 {
        reveal_strlit("mm:ss");
        assert(is_date_letter("mm:ss"@[0]));
    }
    if id == 46 {
        reveal_strlit("[h]:mm:ss");
        assert(is_date_letter("[h]:mm:ss"@[1]));
    }
    if id == 47 {
        reveal_strlit("mmss.0");
        assert("mmss.0"@[5] == '0');
    }
    if id == 48 {
        reveal_strlit("##0.0E+0");
        assert("##0.0E+0"@[0] == '#');
    }
    if id == 49 {
        reveal_strlit("@");
    }
}

/// No other code that every workbook has is `mmss.0`.
proof fn lemma_tenths_code(id: u32)
    requires
        id != 47,
        built_in_code(id) is Some,
    ensures
        built_in_code(id) != Some("mmss.0"@),
{
    reveal_strlit("mmss.0");
    assert("mmss.0"@.len() == 6 && "mmss.0"@[0] == 'm' && "mmss.0"@[3] == 's');
    if id == 0 {
        reveal_strlit("General");
    }
    if id == 1 {
        reveal_strlit("0");
    }
    if id == 2 {
        reveal_strlit("0.00");
    }
    if id == 3 {
        reveal_strlit("#,##0");
    }
    if id == 4 {
        reveal_strlit("#,##0.00");
    }
    if id == 9 {
        reveal_strlit("0%");
    }
    if id == 10 {
        reveal_strlit("0.00%");
    }
    if id == 11 {
        reveal_strlit("0.00E+00");
    }
    if id == 12 {
        reveal_strlit("# ?/?");
    }
    if id == 13 {
        reveal_strlit("# ??/??");
    }
    if id == 14 {
        reveal_strlit("mm-dd-yy");
    }
    if id == 15 {
        reveal_strlit("d-mmm-yy");
    }
    if id == 16 {
        reveal_strlit("d-mmm");
    }
    if id == 17 {
        reveal_strlit("mmm-yy");
    }
    if id == 18 {
        reveal_strlit("h:mm AM/PM");
    }
    if id == 19 {
        reveal_strlit("h:mm:ss AM/PM");
    }
    if id == 20 {
        reveal_strlit("h:mm");
    }
    if id == 21 {
        reveal_strlit("h:mm:ss");
    }
    if id == 22 {
        reveal_strlit("m/d/yy h:mm");
    }
    if id == 37 {
        reveal_strlit("#,##0 ;(#,##0)");
    }
    if id == 38 {
        reveal_strlit("#,##0 ;[Red](#,##0)");
    }
    if id == 39 {
        reveal_strlit("#,##0.00;(#,##0.00)");
    }
    if id == 40 {
        reveal_strlit("#,##0.00;[Red](#,##0.00)");
    }
    if id == 45 {
        reveal_strlit("mm:ss");
    }
    if id == 46 {
        reveal_strlit("[h]:mm:ss");
    }
    if id == 48 {
        reveal_strlit("##0.0E+0");
    }
    if id == 49 {
        reveal_strlit("@");
    }
}

/// Whether attributes are all well-formed, and state a value for a key; or, where the
/// value is `None`, state none for it.
pub open spec fn states(attributes: Seq<AttributeItem>, key: Seq<u8>, value: Option<Seq<u8>>) -> bool {
    &&& forall|i: int| 0 <= i < attributes.len() ==> (#[trigger] attributes[i]) is Pair
    &&& match value {
        None => forall|i: int| 0 <= i < attributes.len() ==> (#[trigger] attributes[i])->key != key,
        Some(v) => {
            &&& exists|i: int| 0 <= i < attributes.len() && (#[trigger] attributes[i])->key == key
            &&& forall|i: int|
                0 <= i < attributes.len() && (#[trigger] attributes[i])->key == key
                    ==> attributes[i]->value == v
        },
    }
}

/// The value of an attribute is found, wherever among the attributes it stands.
pub proof fn law_attribute_is_found(
    attributes: Seq<AttributeItem>,
    key: Seq<u8>,
    value: Option<Seq<u8>>,
)
    requires
        states(attributes, key, value),
    ensures
        attribute_value(attributes, key) == Ok::<Option<Seq<u8>>, Failure>(value),
    decreases attributes.len(),
{
    if attributes.len() > 0 {
        let rest = attributes.skip(1);
        assert(attributes[0] is Pair);
        if attributes[0]->key != key {
            assert forall|i: int| 0 <= i < rest.len() implies (#[trigger] rest[i]) is Pair && (
            rest[i]->key == key && value is Some ==> rest[i]->value == value->0) && (value is None
                ==> rest[i]->key != key) by {
                assert(rest[i] == attributes[i + 1]);
            }
            if value is Some {
                let i = choose|i: int|
                    0 <= i < attributes.len() && (#[trigger] attributes[i])->key == key;
                assert(rest[i - 1] == attributes[i]);
            }
            law_attribute_is_found(rest, key, value);
        }
    }
}

/// The value of the first attribute with a key, read before any malformed one.
pub open spec fn attribute_value(attributes: Seq<AttributeItem>, key: Seq<u8>) -> Result<
    Option<Seq<u8>>,
    Failure,
>
    decreases attributes.len(),
{
    if attributes.len() == 0 {
        Ok(None)
    } else {
        match attributes[0] {
            AttributeItem::Bad(message) => Err(failure(ErrorKind::Attribute, message)),
            AttributeItem::Pair { key: k, local: _, value } => if k == key {
                Ok(Some(value))
            } else {
                attribute_value(attributes.skip(1), key)
            },
        }
    }
}

/// The text of the attribute with a key.
pub fn get_attribute(e: &Tag, key: &[u8]) -> (value: Result<Option<String>, XlsxError>)
    ensures
        match value {
            Ok(Some(text)) => attribute_value(e@.attributes, key@) matches Ok(Some(v)) && text@
                == lossy_text(v),
            Ok(None) => attribute_value(e@.attributes, key@) == Ok::<Option<Seq<u8>>, Failure>(
                None,
            ),
            Err(error) => attribute_value(e@.attributes, key@) == Err::<Option<Seq<u8>>, Failure>(
                error@,
            ),
        },
{
    let ghost items = e@.attributes;
    let mut i: usize = 0;
    assert(items.skip(0) =~= items);
    while i < e.attributes.len()
        invariant
            i <= e.attributes.len(),
            items == e@.attributes,
            items.len() == e.attributes.len(),
            attribute_value(items, key@) == attribute_value(items.skip(i as int), key@),
        decreases e.attributes.len() - i,
    {
        assert(items.skip(i as int)[0] == e.attributes[i as int]@);
        assert(items.skip(i as int).skip(1) =~= items.skip(i + 1));
        match &e.attributes[i] {
            Attribute::Bad(message) => {
                return Err(error(ErrorKind::Attribute, message.as_str()));
            },
            Attribute::Pair { key: k, local: _, value } => {
                if same_bytes(k.as_slice(), key) {
                    return Ok(Some(decode_lossy(value.as_slice())));
                }
            },
        }
        i += 1;
    }
    Ok(None)
}

/// Whether a byte is an ASCII letter.
pub open spec fn is_letter(b: u8) -> bool {
    65 <= b <= 90 || 97 <= b <= 122
}

/// Where the run of letters that starts at `from` ends.
pub open spec fn letters_end(s: Seq<u8>, from: int) -> int
    decreases s.len() - from,
{
    if from < s.len() && is_letter(s[from]) {
        letters_end(s, from + 1)
    } else {
        from
    }
}

/// Where the run of digits that starts at `from` ends.
pub open spec fn digits_end(s: Seq<u8>, from: int) -> int
    decreases s.len() - from,
{
    if from < s.len() && 48 <= s[from] <= 57 {
        digits_end(s, from + 1)
    } else {
        from
    }
}

/// The number of a column that is named by letters, counted from 1.
pub open spec fn letters_value(s: Seq<u8>) -> int
    decreases s.len(),
{
    if s.len() == 0 {
        0
    } else {
        let letter = if s.last() >= 97 {
            s.last() - 96
        } else {
            s.last() - 64
        };
        letters_value(s.drop_last()) * 26 + letter
    }
}

/// A number counted from 1, reduced to 32 bits and counted from 0. Zero stays
/// zero.
pub open spec fn zero_based(n: int) -> int {
    let n32 = n % 0x1_0000_0000;
    if n32 == 0 {
        0
    } else {
        n32 - 1
    }
}

/// The position (row, column) that a cell reference such as `B3` names. What
/// follows the letters and the digits is ignored.
pub open spec fn a1_position(s: Seq<u8>) -> (int, int) {
    let letters = letters_end(s, 0);
    let digits = digits_end(s, letters);
    (
        zero_based(digits_value(s.subrange(letters, digits))),
        zero_based(letters_value(s.subrange(0, letters))),
    )
}

/// The capital letters that name a column, counted from 1: `A` to `Z`, then `AA` and
/// so on.
pub open spec fn column_letters(col: nat) -> Seq<u8>
    decreases col,
{
    if col == 0 {
        Seq::empty()
    } else {
        column_letters(((col - 1) / 26) as nat).push((65 + (col - 1) % 26) as u8)
    }
}

/// Whether two names hold the same letters, large or small.
pub open spec fn same_letters(a: Seq<u8>, b: Seq<u8>) -> bool {
    &&& a.len() == b.len()
    &&& forall|i: int|
        0 <= i < a.len() ==> is_letter(#[trigger] a[i]) && is_letter(b[i]) && (a[i] == b[i] || a[i]
            == b[i] + 32 || a[i] + 32 == b[i])
}

/// The reference of a cell, its column in letters, large or small, and its row in
/// digits, both counted from 1, is read as the position of that cell.
pub proof fn law_reference_names_its_cell(letters: Seq<u8>, row: nat, col: nat)
    requires
        same_letters(letters, column_letters(col)),
        1 <= row <= u32::MAX,
        1 <= col <= u32::MAX,
    ensures
        a1_position(letters + encode_utf8(decimal_digits(row))) == (row - 1, col - 1),
{
    let digits = encode_utf8(decimal_digits(row));
    let s = letters + digits;
    lemma_column_value(letters, col);
    lemma_row_value(row);
    lemma_letters_run(s, 0, letters.len() as int);
    lemma_digits_run(s, letters.len() as int, s.len() as int);
    assert(s.subrange(0, letters.len() as int) =~= letters);
    assert(s.subrange(letters.len() as int, s.len() as int) =~= digits);
}

proof fn lemma_column_value(letters: Seq<u8>, col: nat)
    requires
        same_letters(letters, column_letters(col)),
    ensures
        letters_value(letters) == col,
    decreases col,
{
    if col > 0 {
        let name = column_letters(col);
        let before = column_letters(((col - 1) / 26) as nat);
        assert(name.drop_last() =~= before);
        assert(same_letters(letters.drop_last(), before)) by {
            assert forall|i: int| 0 <= i < before.len() implies is_letter(
                #[trigger] letters.drop_last()[i],
            ) && is_letter(before[i]) && (letters.drop_last()[i] == before[i]
                || letters.drop_last()[i] == before[i] + 32 || letters.drop_last()[i] + 32
                == before[i]) by {
                assert(is_letter(letters[i]));
                assert(name[i] == before[i]);
            }
        }
        lemma_column_value(letters.drop_last(), ((col - 1) / 26) as nat);
        assert(is_letter(letters[letters.len() - 1]));
        assert(name.last() == 65 + (col - 1) % 26);
    }
}

proof fn lemma_row_value(row: nat)
    ensures
        encode_utf8(decimal_digits(row)).len() > 0,
        all_digits(encode_utf8(decimal_digits(row))),
        digits_value(encode_utf8(decimal_digits(row))) == row,
    decreases row,
{
    let text = decimal_digits(row);
    let digits = encode_utf8(text);
    lemma_digits_are_ascii(row);
    is_ascii_chars_encode_utf8(text);
    if row < 10 {
        assert(digits.drop_last().len() == 0);
        assert(digits_value(digits.drop_last()) == 0);
    } else {
        let before = decimal_digits(row / 10);
        lemma_row_value(row / 10);
        lemma_digits_are_ascii(row / 10);
        is_ascii_chars_encode_utf8(before);
        assert(digits.drop_last() =~= encode_utf8(before));
        assert forall|i: int| 0 <= i < digits.len() implies 48 <= #[trigger] digits[i] <= 57 by {
            if i < digits.len() - 1 {
                assert(digits[i] == encode_utf8(before)[i]);
            }
        }
    }
}

proof fn lemma_digits_are_ascii(row: nat)
    ensures
        is_ascii_chars(decimal_digits(row)),
        decimal_digits(row).len() > 0,
    decreases row,
{
    if row >= 10 {
        lemma_digits_are_ascii(row / 10);
    }
}

proof fn lemma_letters_run(s: Seq<u8>, from: int, to: int)
    requires
        0 <= from <= to <= s.len(),
        forall|i: int| from <= i < to ==> is_letter(#[trigger] s[i]),
        to == s.len() || !is_letter(s[to]),
    ensures
        letters_end(s, from) == to,
    decreases to - from,
{
    if from < to {
        lemma_letters_run(s, from + 1, to);
    }
}

proof fn lemma_digits_run(s: Seq<u8>, from: int, to: int)
    requires
        0 <= from <= to <= s.len(),
        forall|i: int| from <= i < to ==> 48 <= #[trigger] s[i] <= 57,
        to == s.len() || !(48 <= s[to] <= 57),
    ensures
        digits_end(s, from) == to,
    decreases to - from,
{
    if from < to {
        lemma_digits_run(s, from + 1, to);
    }
}

/// The position (row, column) that a cell reference names, both counted from
/// zero. It never fails.
pub fn parse_a1(s: &[u8]) -> (position: Result<(u32, u32), XlsxError>)
    ensures
        position matches Ok(p) && (p.0 as int, p.1 as int) == a1_position(s@) && p.0 < u32::MAX
            && p.1 < u32::MAX,
{
    let mut i: usize = 0;
    let mut col: u32 = 0;
    while i < s.len() && ((65 <= s[i] && s[i] <= 90) || (97 <= s[i] && s[i] <= 122))
        invariant
            i <= s.len(),
            letters_end(s@, 0) == letters_end(s@, i as int),
            col == letters_value(s@.subrange(0, i as int)) % 0x1_0000_0000,
        decreases s.len() - i,
    {
        let letter: u32 = if s[i] >= 97 {
            (s[i] - 96) as u32
        } else {
            (s[i] - 64) as u32
        };
        proof {
            let grown = s@.subrange(0, i + 1);
            assert(grown.drop_last() =~= s@.subrange(0, i as int));
            assert(grown.last() == s[i as int]);
            lemma_wrapped_step(letters_value(s@.subrange(0, i as int)), 26, letter as int);
        }
        col = col.wrapping_mul(26).wrapping_add(letter);
        i += 1;
    }
    let ghost letters = i as int;
    let mut row: u32 = 0;
    while i < s.len() && 48 <= s[i] && s[i] <= 57
        invariant
            0 <= letters <= i <= s.len(),
            digits_end(s@, letters) == digits_end(s@, i as int),
            row == digits_value(s@.subrange(letters, i as int)) % 0x1_0000_0000,
        decreases s.len() - i,
    {
        let digit: u32 = (s[i] - 48) as u32;
        proof {
            let grown = s@.subrange(letters, i + 1);
            assert(grown.drop_last() =~= s@.subrange(letters, i as int));
            assert(grown.last() == s[i as int]);
            lemma_wrapped_step(digits_value(s@.subrange(letters, i as int)), 10, digit as int);
        }
        row = row.wrapping_mul(10).wrapping_add(digit);
        i += 1;
    }
    Ok((row.saturating_sub(1), col.saturating_sub(1)))
}

proof fn lemma_wrapped_step(n: int, base: int, digit: int)
    requires
        base == 10 || base == 26,
    ensures
        ((n % 0x1_0000_0000) * base + digit) % 0x1_0000_0000 == (n * base + digit) % 0x1_0000_0000,
        (((n % 0x1_0000_0000) * base) % 0x1_0000_0000 + digit) % 0x1_0000_0000 == (n * base
            + digit) % 0x1_0000_0000,
{
    let m: int = 0x1_0000_0000;
    let r = n % m;
    let q = n / m;
    let c = r * base;
    assert(n == m * q + r);
    assert(n * base + digit == m * (q * base) + (c + digit)) by (nonlinear_arith)
        requires
            n == m * q + r,
            c == r * base,
    ;
    vstd::arithmetic::div_mod::lemma_mod_multiples_vanish(q * base, c + digit, m);
    vstd::arithmetic::div_mod::lemma_add_mod_noop_right(digit, c, m);
}

/// The used range that a reference names: a cell, or two cells with a colon
/// between them. More than one colon is refused.
pub open spec fn dimension_of(s: Seq<u8>) -> Result<((int, int), (int, int)), Failure> {
    let first = byte_from(s, 58, 0);
    let second = byte_from(s, 58, first + 1);
    if first >= s.len() {
        Ok((a1_position(s), a1_position(s)))
    } else if second >= s.len() {
        Ok((a1_position(s.subrange(0, first)), a1_position(s.subrange(first + 1, s.len() as int))))
    } else {
        Err(failure(ErrorKind::Dimension, "Invalid dimension: "@ + lossy_text(s)))
    }
}

/// The reference of a cell: the letters of its column and the digits of its row, both
/// counted from 1.
pub open spec fn is_reference(reference: Seq<u8>, row: nat, col: nat) -> bool {
    &&& 1 <= row <= u32::MAX
    &&& 1 <= col <= u32::MAX
    &&& exists|letters: Seq<u8>| #[trigger]
        same_letters(letters, column_letters(col)) && reference == letters + encode_utf8(
            decimal_digits(row),
        )
}

/// A reference names its cell and holds no colon and no quote.
pub proof fn lemma_reference(reference: Seq<u8>, row: nat, col: nat)
    requires
        is_reference(reference, row, col),
    ensures
        a1_position(reference) == (row - 1, col - 1),
        forall|i: int|
            0 <= i < reference.len() ==> is_letter(#[trigger] reference[i]) || 48 <= reference[i]
                <= 57,
{
    let letters = choose|letters: Seq<u8>| #[trigger]
        same_letters(letters, column_letters(col)) && reference == letters + encode_utf8(
            decimal_digits(row),
        );
    law_reference_names_its_cell(letters, row, col);
    lemma_row_value(row);
    let digits = encode_utf8(decimal_digits(row));
    assert forall|i: int| 0 <= i < reference.len() implies is_letter(#[trigger] reference[i]) || 48
        <= reference[i] <= 57 by {
        if i < letters.len() {
            assert(reference[i] == letters[i]);
        } else {
            assert(reference[i] == digits[i - letters.len()]);
        }
    }
}

/// The references of two cells with a colon between them name the range with these two
/// corners, and a reference alone the range that is its cell.
pub proof fn law_range_names_its_corners(
    first: Seq<u8>,
    last: Seq<u8>,
    from: (nat, nat),
    to: (nat, nat),
)
    requires
        is_reference(first, from.0, from.1),
        is_reference(last, to.0, to.1),
    ensures
        dimension_of(first + seq![58u8] + last) == Ok::<((int, int), (int, int)), Failure>(
            ((from.0 - 1, from.1 - 1), (to.0 - 1, to.1 - 1)),
        ),
        dimension_of(first) == Ok::<((int, int), (int, int)), Failure>(
            ((from.0 - 1, from.1 - 1), (from.0 - 1, from.1 - 1)),
        ),
{
    lemma_reference(first, from.0, from.1);
    lemma_reference(last, to.0, to.1);
    let s = first + seq![58u8] + last;
    let colon = first.len() as int;
    lemma_no_byte(first, 58, 0);
    assert forall|i: int| 0 <= i < colon implies #[trigger] s[i] != 58 by {
        assert(s[i] == first[i]);
    }
    lemma_byte_at(s, 58, 0, colon);
    assert forall|i: int| colon + 1 <= i < s.len() implies #[trigger] s[i] != 58 by {
        assert(s[i] == last[i - colon - 1]);
    }
    lemma_no_byte(s, 58, colon + 1);
    assert(s.subrange(0, colon) =~= first);
    assert(s.subrange(colon + 1, s.len() as int) =~= last);
}

/// A byte that does not stand in a run is not found in it.
pub(crate) proof fn lemma_no_byte(bytes: Seq<u8>, byte: u8, from: int)
    requires
        0 <= from,
        forall|i: int| from <= i < bytes.len() ==> #[trigger] bytes[i] != byte,
    ensures
        byte_from(bytes, byte, from) == bytes.len(),
    decreases bytes.len() - from,
{
    if from < bytes.len() {
        lemma_no_byte(bytes, byte, from + 1);
    }
}

/// A byte is found where it stands first.
pub(crate) proof fn lemma_byte_at(bytes: Seq<u8>, byte: u8, from: int, at: int)
    requires
        0 <= from <= at < bytes.len(),
        bytes[at] == byte,
        forall|i: int| from <= i < at ==> #[trigger] bytes[i] != byte,
    ensures
        byte_from(bytes, byte, from) == at,
    decreases at - from,
{
    if from < at {
        lemma_byte_at(bytes, byte, from + 1, at);
    }
}

/// The corners of a range of a sheet, as contracts speak of them.
pub open spec fn corners(d: Dimensions) -> ((int, int), (int, int)) {
    ((d.start.0 as int, d.start.1 as int), (d.end.0 as int, d.end.1 as int))
}

pub fn parse_dimension(ref_attr: &[u8]) -> (dimensions: Result<Dimensions, XlsxError>)
    ensures
        match dimensions {
            Ok(d) => dimension_of(ref_attr@) == Ok::<((int, int), (int, int)), Failure>(corners(d))
                && d.end.0 < u32::MAX && d.end.1 < u32::MAX,
            Err(e) => dimension_of(ref_attr@) == Err::<((int, int), (int, int)), Failure>(e@),
        },
{
    let first: usize = find_byte(ref_attr, 58, 0);
    if first >= ref_attr.len() {
        let (row, col) = parse_a1(ref_attr)?;
        return Ok(Dimensions { start: (row, col), end: (row, col) });
    }
    let second: usize = find_byte(ref_attr, 58, first + 1);
    if second < ref_attr.len() {
        return Err(
            error_with(ErrorKind::Dimension, "Invalid dimension: ", decode_lossy(ref_attr).as_str()),
        );
    }
    let head = copy_range(ref_attr, 0, first);
    let tail = copy_range(ref_attr, first + 1, ref_attr.len());
    let (start_row, start_col) = parse_a1(head.as_slice())?;
    let (end_row, end_col) = parse_a1(tail.as_slice())?;
    Ok(Dimensions { start: (start_row, start_col), end: (end_row, end_col) })
}

/// The position of a cell: from its reference where it has one, else a default.
pub open spec fn cell_position(
    attributes: Seq<AttributeItem>,
    default_row: u32,
    default_col: u32,
) -> Result<(int, int), Failure> {
    match attribute_value(attributes, bytes_of("r")) {
        Ok(Some(value)) => Ok(a1_position(encode_utf8(lossy_text(value)))),
        Ok(None) => Ok((default_row as int, default_col as int)),
        Err(e) => Err(e),
    }
}

pub fn parse_cell_pos(e: &Tag, default_row: u32, default_col: u32) -> (position: Result<
    (u32, u32),
    XlsxError,
>)
    requires
        default_col < u32::MAX,
    ensures
        match position {
            Ok(p) => cell_position(e@.attributes, default_row, default_col) == Ok::<
                (int, int),
                Failure,
            >((p.0 as int, p.1 as int)) && p.1 < u32::MAX,
            Err(error) => cell_position(e@.attributes, default_row, default_col) == Err::<
                (int, int),
                Failure,
            >(error@),
        },
{
    match get_attribute(e, "r".as_bytes()) {
        Ok(Some(r)) => parse_a1(r.as_str().as_bytes()),
        Ok(None) => Ok((default_row, default_col)),
        Err(error) => Err(error),
    }
}

/// What the text of an element belongs to.
#[derive(Debug, Clone, Copy, PartialEq, Eq, Structural)]
pub enum TextPlace {
    Cell,
    SharedString,
}

/// The message for a document that ends inside a text.
pub open spec fn eof_message(place: TextPlace) -> Seq<char> {
    match place {
        TextPlace::Cell => "Unexpected EOF in text content"@,
        TextPlace::SharedString => "Unexpected EOF in shared string"@,
    }
}

/// How the message for malformed XML inside a text begins.
pub open spec fn error_message(place: TextPlace) -> Seq<char> {
    match place {
        TextPlace::Cell => "XML error: "@,
        TextPlace::SharedString => "XML error in shared string: "@,
    }
}

/// How the text of an element goes on after an event: the text so far and
/// whether the element ended.
pub open spec fn text_after(
    text: Seq<char>,
    item: XmlItem,
    end_tag: Seq<u8>,
    place: TextPlace,
) -> Result<(Seq<char>, bool), Failure> {
    match item {
        XmlItem::Text(t) => Ok((text + t, false)),
        XmlItem::CData(bytes) => Ok((text + lossy_text(bytes), false)),
        XmlItem::End(name) => Ok((text, name == end_tag)),
        XmlItem::Eof => Err(failure(ErrorKind::UnexpectedEof, eof_message(place))),
        XmlItem::Error(e) => Err(failure(ErrorKind::Xml, error_message(place) + e)),
        _ => Ok((text, false)),
    }
}

/// Takes one event of an element's content.
pub fn text_step(
    text: &mut String,
    event: &XmlEvent,
    end_tag: &[u8],
    place: TextPlace,
) -> (ended: Result<bool, XlsxError>)
    ensures
        match ended {
            Ok(b) => text_after(old(text)@, event@, end_tag@, place) == Ok::<(Seq<char>, bool), Failure>(
                (final(text)@, b),
            ),
            Err(e) => text_after(old(text)@, event@, end_tag@, place) == Err::<
                (Seq<char>, bool),
                Failure,
            >(e@) && final(text)@ == old(text)@,
        },
{
    match event {
        XmlEvent::Text(t) => {
            text.append(t.as_str());
            Ok(false)
        },
        XmlEvent::CData(bytes) => {
            let decoded = decode_lossy(bytes.as_slice());
            text.append(decoded.as_str());
            Ok(false)
        },
        XmlEvent::End(name) => Ok(same_bytes(name.as_slice(), end_tag)),
        XmlEvent::Eof => match place {
            TextPlace::Cell => Err(
                error(ErrorKind::UnexpectedEof, "Unexpected EOF in text content"),
            ),
            TextPlace::SharedString => Err(
                error(ErrorKind::UnexpectedEof, "Unexpected EOF in shared string"),
            ),
        },
        XmlEvent::Error(e) => match place {
            TextPlace::Cell => Err(error_with(ErrorKind::Xml, "XML error: ", e.as_str())),
            TextPlace::SharedString => Err(
                error_with(ErrorKind::Xml, "XML error in shared string: ", e.as_str()),
            ),
        },
        _ => Ok(false),
    }
}

/// The text of an element whose start tag was read: what stands up to its end
/// tag, and the events after that.
pub open spec fn text_content(items: Seq<XmlItem>, text: Seq<char>, end_tag: Seq<u8>) -> Result<
    (Seq<char>, Seq<XmlItem>),
    Failure,
>
    decreases items.len(),
{
    if items.len() == 0 {
        Err(failure(ErrorKind::UnexpectedEof, "Unexpected EOF in text content"@))
    } else {
        match text_after(text, items[0], end_tag, TextPlace::Cell) {
            Err(e) => Err(e),
            Ok((t, true)) => Ok((t, events_after(items))),
            Ok((t, false)) => text_content(items.skip(1), t, end_tag),
        }
    }
}

/// Reads the text of an element up to its end tag.
pub fn read_text_content(xml: &mut XmlDocument, end_tag: &[u8]) -> (text: Result<
    String,
    XlsxError,
>)
    requires
        old(xml).wf(),
    ensures
        final(xml).wf(),
        match text {
            Ok(t) => text_content(old(xml).pending(), Seq::empty(), end_tag@) == Ok::<
                (Seq<char>, Seq<XmlItem>),
                Failure,
            >((t@, final(xml).pending())),
            Err(e) => text_content(old(xml).pending(), Seq::empty(), end_tag@) == Err::<
                (Seq<char>, Seq<XmlItem>),
                Failure,
            >(e@),
        },
{
    let mut text = String::new();
    loop
        invariant
            xml.wf(),
            text_content(old(xml).pending(), Seq::empty(), end_tag@) == text_content(
                xml.pending(),
                text@,
                end_tag@,
            ),
        decreases xml.pending().len(),
    {
        let event = xml.next();
        match text_step(&mut text, &event, end_tag, TextPlace::Cell) {
            Err(e) => return Err(e),
            Ok(ended) => {
                if ended {
                    return Ok(text);
                }
            },
        }
    }
}

/// The text of an inline string whose start tag was read: the texts of its `t`
/// elements, one after the other, and the events after its end tag.
pub open spec fn inline_content(items: Seq<XmlItem>, text: Seq<char>) -> Result<
    (Seq<char>, Seq<XmlItem>),
    Failure,
>
    decreases items.len(),
{
    if items.len() == 0 {
        Err(failure(ErrorKind::UnexpectedEof, "Unexpected EOF in <is>"@))
    } else {
        match items[0] {
            XmlItem::Start(tag) => if tag.name == bytes_of("t") {
                match text_content(items.skip(1), Seq::empty(), bytes_of("t")) {
                    Err(e) => Err(e),
                    Ok((t, rest)) => if rest.len() < items.len() {
                        inline_content(rest, text + t)
                    } else {
                        Err(failure(ErrorKind::UnexpectedEof, "Unexpected EOF in <is>"@))
                    },
                }
            } else {
                inline_content(items.skip(1), text)
            },
            XmlItem::End(name) => if name == bytes_of("is") {
                Ok((text, items.skip(1)))
            } else {
                inline_content(items.skip(1), text)
            },
            XmlItem::Eof => Err(failure(ErrorKind::UnexpectedEof, "Unexpected EOF in <is>"@)),
            XmlItem::Error(e) => Err(failure(ErrorKind::Xml, "XML error in <is>: "@ + e)),
            _ => inline_content(items.skip(1), text),
        }
    }
}

/// What follows an element is shorter than the element's content.
pub proof fn lemma_text_content_shrinks(items: Seq<XmlItem>, text: Seq<char>, end_tag: Seq<u8>)
    ensures
        text_content(items, text, end_tag) matches Ok((_, rest)) ==> rest.len() < items.len(),
    decreases items.len(),
{
    if items.len() > 0 {
        match text_after(text, items[0], end_tag, TextPlace::Cell) {
            Ok((t, false)) => {
                lemma_text_content_shrinks(items.skip(1), t, end_tag);
            },
            _ => {},
        }
    }
}

/// Reads an inline string up to its end tag.
pub fn read_inline_str(xml: &mut XmlDocument) -> (text: Result<String, XlsxError>)
    requires
        old(xml).wf(),
    ensures
        final(xml).wf(),
        match text {
            Ok(t) => inline_content(old(xml).pending(), Seq::empty()) == Ok::<
                (Seq<char>, Seq<XmlItem>),
                Failure,
            >((t@, final(xml).pending())),
            Err(e) => inline_content(old(xml).pending(), Seq::empty()) == Err::<
                (Seq<char>, Seq<XmlItem>),
                Failure,
            >(e@),
        },
{
    let mut text = String::new();
    loop
        invariant
            xml.wf(),
            inline_content(old(xml).pending(), Seq::empty()) == inline_content(
                xml.pending(),
                text@,
            ),
        decreases xml.pending().len(),
    {
        let ghost before = xml.pending();
        let event = xml.next();
        match event {
            XmlEvent::Start(tag) => {
                if same_bytes(tag.name.as_slice(), "t".as_bytes()) {
                    proof {
                        lemma_text_content_shrinks(
                            before.skip(1),
                            Seq::empty(),
                            bytes_of("t"),
                        );
                    }
                    match read_text_content(xml, "t".as_bytes()) {
                        Err(e) => return Err(e),
                        Ok(t) => {
                            text.append(t.as_str());
                        },
                    }
                }
            },
            XmlEvent::End(name) => {
                if same_bytes(name.as_slice(), "is".as_bytes()) {
                    return Ok(text);
                }
            },
            XmlEvent::Eof => {
                return Err(error(ErrorKind::UnexpectedEof, "Unexpected EOF in <is>"));
            },
            XmlEvent::Error(e) => {
                return Err(error_with(ErrorKind::Xml, "XML error in <is>: ", e.as_str()));
            },
            _ => {},
        }
    }
}

/// Whether reading a cell's raw text needs the text to be read as a
/// floating-point number: it has no type of its own and is no integer.
pub open spec fn wants_float(text: Seq<char>, t_attr: Option<Seq<char>>) -> bool {
    &&& t_attr != Some("s"@)
    &&& t_attr != Some("b"@)
    &&& t_attr != Some("e"@)
    &&& t_attr != Some("str"@)
    &&& t_attr != Some("d"@)
    &&& signed_value(encode_utf8(text)) is None
}

/// Whether `data` is what a cell's raw text stands for under a type. `number`
/// is the text read as a floating-point number.
pub open spec fn raw_value(
    text: Seq<char>,
    t_attr: Option<Seq<char>>,
    number: Option<Float>,
    data: Data,
) -> bool {
    if t_attr == Some("s"@) || t_attr == Some("str"@) {
        data matches Data::String(s) && s@ == text
    } else if t_attr == Some("b"@) {
        data == Data::Bool(text != "0"@)
    } else if t_attr == Some("e"@) {
        data matches Data::Error(e) && (error_code(e) == text || e == CellErrorType::Value && (
        forall|other: CellErrorType| error_code(other) != text))
    } else if t_attr == Some("d"@) {
        data matches Data::DateTimeIso(s) && s@ == text
    } else {
        match signed_value(encode_utf8(text)) {
            Some(n) => data == Data::Int(n as i64),
            None => match number {
                Some(float) => data == Data::Float(float),
                None => data matches Data::String(s) && s@ == text,
            },
        }
    }
}

fn type_is(t_attr: Option<&str>, name: &str) -> (same: bool)
    ensures
        same == (t_attr matches Some(t) && t@ == name@),
{
    match t_attr {
        Some(t) => same_text(t, name),
        None => false,
    }
}

/// The optional type of a cell, as contracts speak of it.
pub open spec fn type_text(t_attr: Option<&str>) -> Option<Seq<char>> {
    match t_attr {
        Some(t) => Some(t@),
        None => None,
    }
}

/// The names of the cell types differ.
pub proof fn lemma_type_names()
    ensures
        "s"@ != "b"@,
        "s"@ != "e"@,
        "s"@ != "str"@,
        "s"@ != "d"@,
        "b"@ != "e"@,
        "b"@ != "str"@,
        "b"@ != "d"@,
        "e"@ != "str"@,
        "e"@ != "d"@,
        "str"@ != "d"@,
{
    reveal_strlit("s");
    reveal_strlit("b");
    reveal_strlit("e");
    reveal_strlit("str");
    reveal_strlit("d");
    assert("s"@[0] == 's');
    assert("b"@[0] == 'b');
    assert("e"@[0] == 'e');
    assert("d"@[0] == 'd');
    assert("str"@.len() == 3);
}

/// Whether a cell's raw text has to be read as a floating-point number.
pub fn needs_float(text: &str, t_attr: Option<&str>) -> (needed: bool)
    ensures
        needed == wants_float(text@, type_text(t_attr)),
{
    !type_is(t_attr, "s") && !type_is(t_attr, "b") && !type_is(t_attr, "e") && !type_is(
        t_attr,
        "str",
    ) && !type_is(t_attr, "d") && parse_i64(text.as_bytes()).is_none()
}

/// The value that a cell's raw text stands for under the cell's type. `number`
/// is the text read as a floating-point number, `None` where it is none; it is
/// looked at only where `needs_float` says so.
pub fn parse_raw_value(text: &str, t_attr: Option<&str>, number: Option<Float>) -> (data: Result<
    Data,
    XlsxError,
>)
    ensures
        data matches Ok(d) && raw_value(text@, type_text(t_attr), number, d),
{
    proof {
        lemma_type_names();
    }
    if type_is(t_attr, "s") {
        return Ok(Data::String(text.to_owned()));
    }
    if type_is(t_attr, "b") {
        return Ok(Data::Bool(!same_text(text, "0")));
    }
    if type_is(t_attr, "e") {
        return match CellErrorType::from_str(text) {
            Ok(e) => Ok(Data::Error(e)),
            Err(_) => Ok(Data::Error(CellErrorType::Value)),
        };
    }
    if type_is(t_attr, "str") {
        return Ok(Data::String(text.to_owned()));
    }
    if type_is(t_attr, "d") {
        return Ok(Data::DateTimeIso(text.to_owned()));
    }
    match parse_i64(text.as_bytes()) {
        Some(n) => Ok(Data::Int(n)),
        None => match number {
            Some(float) => Ok(Data::Float(float)),
            None => Ok(Data::String(text.to_owned())),
        },
    }
}

} // verus!
