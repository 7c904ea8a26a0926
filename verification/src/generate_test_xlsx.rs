//! A workbook of random values to try the reader on.

use crate::text::{
    decimal_digits, law_decimal_reads_back, law_digits_differ, law_digits_read_back,
    law_unsigned_texts, push_decimal, unsigned_value, writes_with, zeros,
};
use vstd::prelude::*;
use vstd::utf8::*;

verus! {

/// The random values of a row.
#[derive(Debug)]
pub struct Draws {
    pub int_val: i64,
    pub text: u32,
    pub flag: bool,
    pub date: (u32, u32, u32),
    pub time: (u32, u32, u32),
    pub duration: (u32, u32, u32),
    pub filled: bool,
    /// One value for each column after the seventh.
    pub extra: Vec<u32>,
}

/// What is written into a cell.
#[derive(Debug)]
pub enum Planned {
    Int(i64),
    /// The floating-point number drawn for the row.
    Float,
    Text(String),
    Bool(bool),
    /// A date and time, given as text.
    DateTime(String),
    /// Nothing.
    Blank,
}

/// What is written into a cell, as contracts speak of it.
pub enum PlannedItem {
    Int(i64),
    Float,
    Text(Seq<char>),
    Bool(bool),
    DateTime(Seq<char>),
    Blank,
}

impl View for Planned {
    type V = PlannedItem;

    open spec fn view(&self) -> PlannedItem {
        match self {
            Planned::Int(n) => PlannedItem::Int(*n),
            Planned::Float => PlannedItem::Float,
            Planned::Text(text) => PlannedItem::Text(text@),
            Planned::Bool(b) => PlannedItem::Bool(*b),
            Planned::DateTime(text) => PlannedItem::DateTime(text@),
            Planned::Blank => PlannedItem::Blank,
        }
    }
}

/// A number in decimal notation, with zeros before it up to a width.
pub open spec fn padded_number(n: int, width: int) -> Seq<char> {
    let digits = decimal_digits(n as nat);
    let zeros: nat = if width > digits.len() {
        (width - digits.len()) as nat
    } else {
        0
    };
    Seq::new(zeros, |i: int| '0') + digits
}

/// The text of a row with a random number in it.
pub open spec fn random_text(row: int, n: int) -> Seq<char> {
    "row_"@ + decimal_digits(row as nat) + "_rnd"@ + decimal_digits(n as nat)
}

/// A date and time as text: `2024-01-31 09:05:00`.
pub open spec fn date_time_text(date: (u32, u32, u32), time: (u32, u32, u32)) -> Seq<char> {
    padded_number(date.0 as int, 4) + "-"@ + padded_number(date.1 as int, 2) + "-"@ + padded_number(
        date.2 as int,
        2,
    ) + " "@ + padded_number(time.0 as int, 2) + ":"@ + padded_number(time.1 as int, 2) + ":"@
        + padded_number(time.2 as int, 2)
}

/// A duration in ISO 8601: `PT12H30M5S`.
pub open spec fn duration_text(duration: (u32, u32, u32)) -> Seq<char> {
    "PT"@ + decimal_digits(duration.0 as nat) + "H"@ + decimal_digits(duration.1 as nat) + "M"@
        + decimal_digits(duration.2 as nat) + "S"@
}

/// The seven fixed cells of a row.
pub open spec fn fixed_cells(row: int, draws: Draws) -> Seq<PlannedItem> {
    seq![
        PlannedItem::Int(draws.int_val),
        PlannedItem::Float,
        PlannedItem::Text(random_text(row, draws.text as int)),
        PlannedItem::Bool(draws.flag),
        PlannedItem::DateTime(date_time_text(draws.date, draws.time)),
        PlannedItem::Text(duration_text(draws.duration)),
        if draws.filled {
            PlannedItem::Text("filled"@)
        } else {
            PlannedItem::Blank
        },
    ]
}

/// The cells of a row: seven of fixed kinds, then one text for each further column.
pub open spec fn row_cells(row: int, draws: Draws) -> Seq<PlannedItem> {
    fixed_cells(row, draws) + draws.extra@.map_values(
        |n: u32| PlannedItem::Text(random_text(row, n as int)),
    )
}

/// Cells as contracts speak of them.
pub open spec fn planned_items(cells: Seq<Planned>) -> Seq<PlannedItem> {
    cells.map_values(|cell: Planned| cell@)
}

fn count_digits(n: u32) -> (count: usize)
    ensures
        count == decimal_digits(n as nat).len(),
        count <= n + 1,
    decreases n,
{
    if n < 10 {
        1
    } else {
        1 + count_digits(n / 10)
    }
}

fn push_padded(out: &mut String, n: u32, width: usize)
    ensures
        final(out)@ == old(out)@ + padded_number(n as int, width as int),
{
    let digits: usize = count_digits(n);
    let ghost before = out@;
    let mut k: usize = digits;
    assert(out@ =~= before + Seq::new(0, |i: int| '0'));
    while k < width
        invariant
            digits <= k,
            k <= width || k == digits,
            out@ == before + Seq::new((k - digits) as nat, |i: int| '0'),
        decreases width - k,
    {
        out.append("0");
        proof {
            reveal_strlit("0");
        }
        k += 1;
        assert(out@ =~= before + Seq::new((k - digits) as nat, |i: int| '0'));
    }
    push_decimal(out, n as u64);
    assert(out@ =~= before + padded_number(n as int, width as int));
}

fn write_random_text(row: usize, n: u32) -> (text: String)
    ensures
        text@ == random_text(row as int, n as int),
{
    let mut text = "row_".to_owned();
    push_decimal(&mut text, row as u64);
    text.append("_rnd");
    push_decimal(&mut text, n as u64);
    text
}

fn write_date_time(date: (u32, u32, u32), time: (u32, u32, u32)) -> (text: String)
    ensures
        text@ == date_time_text(date, time),
{
    let mut text = String::new();
    push_padded(&mut text, date.0, 4);
    assert(text@ =~= padded_number(date.0 as int, 4));
    text.append("-");
    push_padded(&mut text, date.1, 2);
    text.append("-");
    push_padded(&mut text, date.2, 2);
    text.append(" ");
    push_padded(&mut text, time.0, 2);
    text.append(":");
    push_padded(&mut text, time.1, 2);
    text.append(":");
    push_padded(&mut text, time.2, 2);
    text
}

fn write_duration(duration: (u32, u32, u32)) -> (text: String)
    ensures
        text@ == duration_text(duration),
{
    let mut text = "PT".to_owned();
    push_decimal(&mut text, duration.0 as u64);
    text.append("H");
    push_decimal(&mut text, duration.1 as u64);
    text.append("M");
    push_decimal(&mut text, duration.2 as u64);
    text.append("S");
    text
}

/// The names of the seven fixed columns.
pub fn header_names() -> (names: Vec<&'static str>)
    ensures
        names@.map_values(|name: &'static str| name@) == seq![
            "Int"@,
            "Float"@,
            "String"@,
            "Bool"@,
            "DateTime"@,
            "DurationIso"@,
            "Empty"@,
        ],
{
    let names = vec!["Int", "Float", "String", "Bool", "DateTime", "DurationIso", "Empty"];
    assert(names@.map_values(|name: &'static str| name@) =~= seq![
        "Int"@,
        "Float"@,
        "String"@,
        "Bool"@,
        "DateTime"@,
        "DurationIso"@,
        "Empty"@,
    ]);
    names
}

/// The columns after the seven fixed ones.
pub open spec fn further_columns(col: usize) -> int {
    if col > 7 {
        col - 7
    } else {
        0
    }
}

/// The fixed columns and those after them are as many as are asked for, and never fewer than
/// the fixed ones.
pub proof fn law_columns_as_asked(col: usize, row: int, draws: Draws)
    requires
        draws.extra.len() == further_columns(col),
    ensures
        row_cells(row, draws).len() == (if col > 7 {
            col as int
        } else {
            7
        }),
{
}

/// The columns after the seven fixed ones.
pub fn addition_cols(col: usize) -> (n: usize)
    ensures
        n == further_columns(col),
{
    col.saturating_sub(7)
}

/// The cells of a row, by the random values drawn for it.
pub fn plan_row(row: usize, draws: &Draws) -> (cells: Vec<Planned>)
    ensures
        planned_items(cells@) == row_cells(row as int, *draws),
{
    let last = if draws.filled {
        Planned::Text("filled".to_owned())
    } else {
        Planned::Blank
    };
    let mut cells: Vec<Planned> = Vec::new();
    cells.push(Planned::Int(draws.int_val));
    cells.push(Planned::Float);
    cells.push(Planned::Text(write_random_text(row, draws.text)));
    cells.push(Planned::Bool(draws.flag));
    cells.push(Planned::DateTime(write_date_time(draws.date, draws.time)));
    cells.push(Planned::Text(write_duration(draws.duration)));
    cells.push(last);
    let ghost wanted = row_cells(row as int, *draws);
    assert(planned_items(cells@) =~= wanted.take(7));
    let mut i: usize = 0;
    while i < draws.extra.len()
        invariant
            i <= draws.extra.len(),
            wanted == row_cells(row as int, *draws),
            planned_items(cells@) == wanted.take(7 + i),
        decreases draws.extra.len() - i,
    {
        let ghost before = cells@;
        cells.push(Planned::Text(write_random_text(row, draws.extra[i])));
        i += 1;
        assert(planned_items(cells@) =~= planned_items(before).push(wanted[7 + i - 1]));
        assert(wanted.take(7 + i) =~= wanted.take(7 + i - 1).push(wanted[7 + i - 1]));
    }
    assert(wanted.take(7 + i) =~= wanted);
    cells
}

/// A number with zeros before it reads back as the number, and is as wide as is asked for
/// where it has no more digits.
pub proof fn law_padded_numbers(n: int, width: int)
    requires
        0 <= n,
        0 <= width,
    ensures
        unsigned_value(encode_utf8(padded_number(n, width)), n) == Some(n),
        padded_number(n, width).len() >= width,
        n < 10 && width >= 1 ==> padded_number(n, width).len() == width,
        n < 100 && width >= 2 ==> padded_number(n, width).len() == width,
        n < 10_000 && width >= 4 ==> padded_number(n, width).len() == width,
{
    let digits = decimal_digits(n as nat);
    let text = padded_number(n, width);
    let k: nat = if width > digits.len() {
        (width - digits.len()) as nat
    } else {
        0
    };
    law_digits_read_back(n as nat);
    assert forall|i: int| 0 <= i < text.len() implies (#[trigger] text[i]) as u32 <= 127 by {
        if i >= k {
            assert(text[i] == digits[i - k]);
        }
    }
    is_ascii_chars_encode_utf8(text);
    is_ascii_chars_encode_utf8(digits);
    let bytes = encode_utf8(text);
    let none = Seq::<u8>::empty();
    assert(bytes =~= none + zeros(k) + encode_utf8(digits));
    assert(writes_with(bytes, n, none, k));
    assert(48 <= bytes[0] <= 57) by {
        if k == 0 {
            assert(bytes[0] == encode_utf8(digits)[0]);
        }
    }
    law_unsigned_texts(bytes, n, n);
    reveal_with_fuel(decimal_digits, 5);
}

/// A date and time as text is as wide as it always is, and its year, month, day, hour, minute
/// and second stand in their places and read back as they are.
pub proof fn law_date_time_texts(date: (u32, u32, u32), time: (u32, u32, u32))
    requires
        date.0 < 10_000,
        date.1 < 100,
        date.2 < 100,
        time.0 < 100,
        time.1 < 100,
        time.2 < 100,
    ensures
        ({
            let text = date_time_text(date, time);
            &&& text.len() == 19
            &&& text[4] == '-' && text[7] == '-' && text[10] == ' ' && text[13] == ':' && text[16]
                == ':'
            &&& unsigned_value(encode_utf8(text.subrange(0, 4)), date.0 as int) == Some(
                date.0 as int,
            )
            &&& unsigned_value(encode_utf8(text.subrange(5, 7)), date.1 as int) == Some(
                date.1 as int,
            )
            &&& unsigned_value(encode_utf8(text.subrange(8, 10)), date.2 as int) == Some(
                date.2 as int,
            )
            &&& unsigned_value(encode_utf8(text.subrange(11, 13)), time.0 as int) == Some(
                time.0 as int,
            )
            &&& unsigned_value(encode_utf8(text.subrange(14, 16)), time.1 as int) == Some(
                time.1 as int,
            )
            &&& unsigned_value(encode_utf8(text.subrange(17, 19)), time.2 as int) == Some(
                time.2 as int,
            )
        }),
{
    reveal_strlit("-");
    reveal_strlit(" ");
    reveal_strlit(":");
    law_padded_numbers(date.0 as int, 4);
    law_padded_numbers(date.1 as int, 2);
    law_padded_numbers(date.2 as int, 2);
    law_padded_numbers(time.0 as int, 2);
    law_padded_numbers(time.1 as int, 2);
    law_padded_numbers(time.2 as int, 2);
    let text = date_time_text(date, time);
    assert(text.subrange(0, 4) =~= padded_number(date.0 as int, 4));
    assert(text.subrange(5, 7) =~= padded_number(date.1 as int, 2));
    assert(text.subrange(8, 10) =~= padded_number(date.2 as int, 2));
    assert(text.subrange(11, 13) =~= padded_number(time.0 as int, 2));
    assert(text.subrange(14, 16) =~= padded_number(time.1 as int, 2));
    assert(text.subrange(17, 19) =~= padded_number(time.2 as int, 2));
}

/// The cells of a row are what was drawn for it, each in its column: an integer, the
/// floating-point number, a text, a boolean, a date and time, a duration, and a text or
/// nothing; then a text for each further column. The texts that are drawn differ where their
/// numbers do.
pub proof fn law_rows_are_as_drawn(row: int, draws: Draws, a: u32, b: u32)
    requires
        0 <= row,
    ensures
        ({
            let cells = row_cells(row, draws);
            &&& cells.len() == 7 + draws.extra.len()
            &&& cells[0] == PlannedItem::Int(draws.int_val)
            &&& cells[1] is Float
            &&& cells[2] == PlannedItem::Text(random_text(row, draws.text as int))
            &&& cells[3] == PlannedItem::Bool(draws.flag)
            &&& cells[4] == PlannedItem::DateTime(date_time_text(draws.date, draws.time))
            &&& cells[5] == PlannedItem::Text(duration_text(draws.duration))
            &&& draws.filled ==> cells[6] == PlannedItem::Text("filled"@)
            &&& !draws.filled ==> cells[6] is Blank
            &&& forall|i: int|
                0 <= i < draws.extra.len() ==> cells[7 + i] == PlannedItem::Text(
                    random_text(row, (#[trigger] draws.extra@[i]) as int),
                )
        }),
        a != b ==> random_text(row, a as int) != random_text(row, b as int),
{
    let lead = "row_"@ + decimal_digits(row as nat) + "_rnd"@;
    let n = lead.len() as int;
    assert(random_text(row, a as int).skip(n) =~= decimal_digits(a as nat));
    assert(random_text(row, b as int).skip(n) =~= decimal_digits(b as nat));
    law_digits_differ(a as nat, b as nat);
}

/// A duration as text is `PT` and its hours, minutes and seconds, each before its letter and
/// reading back as it is.
pub proof fn law_duration_texts(duration: (u32, u32, u32))
    ensures
        ({
            let text = duration_text(duration);
            let h = 2 + decimal_digits(duration.0 as nat).len() as int;
            let m = h + 1 + decimal_digits(duration.1 as nat).len();
            let s = m + 1 + decimal_digits(duration.2 as nat).len();
            &&& text.len() == s + 1
            &&& text[0] == 'P' && text[1] == 'T' && text[h] == 'H' && text[m] == 'M'
                && text[s] == 'S'
            &&& unsigned_value(
                encode_utf8(text.subrange(2, h)),
                duration.0 as int,
            ) == Some(duration.0 as int)
            &&& unsigned_value(
                encode_utf8(text.subrange(h + 1, m)),
                duration.1 as int,
            ) == Some(duration.1 as int)
            &&& unsigned_value(
                encode_utf8(text.subrange(m + 1, s)),
                duration.2 as int,
            ) == Some(duration.2 as int)
        }),
{
    reveal_strlit("PT");
    reveal_strlit("H");
    reveal_strlit("M");
    reveal_strlit("S");
    law_decimal_reads_back(duration.0 as int);
    law_decimal_reads_back(duration.1 as int);
    law_decimal_reads_back(duration.2 as int);
    let text = duration_text(duration);
    let h = 2 + decimal_digits(duration.0 as nat).len() as int;
    let m = h + 1 + decimal_digits(duration.1 as nat).len();
    let s = m + 1 + decimal_digits(duration.2 as nat).len();
    assert(text.subrange(2, h) =~= decimal_digits(duration.0 as nat));
    assert(text.subrange(h + 1, m) =~= decimal_digits(duration.1 as nat));
    assert(text.subrange(m + 1, s) =~= decimal_digits(duration.2 as nat));
}

} // verus!
