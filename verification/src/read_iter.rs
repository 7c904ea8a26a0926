//! Columns of whole sheets: every column keeps its values by the row of the sheet.

use crate::calendar::{days_of_date, leap_year, month_length, UNIX_EPOCH_INDEX};
use crate::error::{failure, ErrorKind, Failure, XlsxError};
use crate::excel_types::{
    clamp, law_parts_name_the_day, law_timestamp_counts_from_epoch, near_serial, one_time_of_day,
    serial_date, serial_time, Cell, Data, ExcelDateTime,
};
use crate::float::float_serial;
use crate::text::{
    decimal_digits, law_decimal_reads_back, law_digits_differ, push_decimal, unsigned_value,
};
use crate::typed_col::{data_item, AnyValue, Item};
use vstd::prelude::*;

verus! {

/// A date and time of the calendar in nanoseconds since 1970-01-01; `None` where there
/// is no such date or time, or it is too far away for 64 bits. The last second of a
/// minute may run on for another second.
pub open spec fn calendar_timestamp(
    year: int,
    month: int,
    day: int,
    hour: int,
    minute: int,
    second: int,
    milli: int,
) -> Option<int> {
    let seconds = (days_of_date(year, month, day) - UNIX_EPOCH_INDEX) * 86_400 + hour * 3600
        + minute * 60 + second;
    let nanos = seconds * 1_000_000_000 + milli * 1_000_000;
    let date = 1 <= month <= 12 && 1 <= day <= month_length(month, leap_year(year));
    let time = hour < 24 && minute < 60 && second < 60 && (milli < 1000 || second == 59 && milli
        < 2000);
    if date && time && i64::MIN <= nanos <= i64::MAX {
        Some(nanos)
    } else {
        None
    }
}

/// A date and time of the calendar in nanoseconds since 1970-01-01, 0 where there is no
/// such timestamp.
pub open spec fn calendar_nanos(
    year: int,
    month: int,
    day: int,
    hour: int,
    minute: int,
    second: int,
    milli: int,
) -> int {
    match calendar_timestamp(year, month, day, hour, minute, second, milli) {
        Some(nanos) => nanos,
        None => 0,
    }
}

/// `NaiveDate::from_ymd_opt`, `NaiveDate::and_hms_milli_opt` and
/// `DateTime::timestamp_nanos_opt` of `chrono`: the timestamp of a date and time, `None`
/// exactly where one of the three gives none.
#[verifier::external_body]
pub(crate) fn chrono_nanos(year: u16, month: u8, day: u8, time: (u8, u8, u8), milli: u16) -> (nanos:
    Option<i64>)
    ensures
        ({
            let stamp = calendar_timestamp(
                year as int,
                month as int,
                day as int,
                time.0 as int,
                time.1 as int,
                time.2 as int,
                milli as int,
            );
            match nanos {
                Some(n) => stamp == Some(n as int),
                None => stamp is None,
            }
        }),
{
    let (h, min, s, ms) = (time.0 as u32, time.1 as u32, time.2 as u32, milli as u32);
    chrono::NaiveDate::from_ymd_opt(year as i32, month as u32, day as u32)
        .and_then(|date| date.and_hms_milli_opt(h, min, s, ms))
        .and_then(|naive| naive.and_utc().timestamp_nanos_opt())
}

/// A value as an entry of a column. A date goes through the calendar.
pub open spec fn calendar_item(data: Data) -> Item {
    match data {
        Data::Int(n) => Item::Int(n),
        Data::Float(x) => Item::Float(x),
        Data::Bool(b) => Item::Bool(b),
        Data::String(s) => Item::Text(s@),
        Data::DateTime(date) => {
            let serial = float_serial(date.number());
            let days = clamp(serial.days as int, 0, u64::MAX as int);
            let (year, month, day) = serial_date(days, date.from_1904());
            let (seconds, milli) = serial_time(serial);
            Item::Datetime(
                calendar_nanos(
                    year % 0x1_0000,
                    month % 0x100,
                    day % 0x100,
                    (seconds / 3600) % 0x100,
                    seconds % 3600 / 60,
                    seconds % 60,
                    milli % 0x1_0000,
                ) as i64,
            )
        },
        Data::DateTimeIso(s) => Item::Text(s@),
        Data::DurationIso(s) => Item::Text(s@),
        Data::SharedStringRef(index) => Item::Text(decimal_digits(index as nat)),
        Data::Error(_) => Item::Null,
        Data::Empty => Item::Null,
    }
}

/// What a column can hold of a cell's value.
pub trait FromData: Sized {
    /// Whether this is what the value becomes.
    spec fn made_of(self, data: Data) -> bool;

    fn from_data(data: &Data) -> (value: Self)
        ensures
            value.made_of(*data),
    ;
}

impl FromData for Data {
    open spec fn made_of(self, data: Data) -> bool {
        self == data
    }

    fn from_data(data: &Data) -> Self {
        data.copy()
    }
}

impl FromData for AnyValue {
    open spec fn made_of(self, data: Data) -> bool {
        self@ == calendar_item(data)
    }

    fn from_data(data: &Data) -> Self {
        match data {
            Data::Int(n) => AnyValue::Int64(*n),
            Data::Float(x) => AnyValue::Float64(x.copy()),
            Data::Bool(b) => AnyValue::Boolean(*b),
            Data::String(s) => AnyValue::StringOwned(s.clone()),
            Data::DateTime(date) => {
                let (y, m, d, h, min, s, ms) = date.to_ymd_hms_milli();
                let nanos: i64 = match chrono_nanos(y, m, d, (h, min, s), ms) {
                    Some(nanos) => nanos,
                    None => 0,
                };
                AnyValue::Datetime(nanos)
            },
            Data::DateTimeIso(s) => AnyValue::StringOwned(s.clone()),
            Data::DurationIso(s) => AnyValue::StringOwned(s.clone()),
            Data::SharedStringRef(index) => {
                let mut text = String::new();
                push_decimal(&mut text, *index as u64);
                assert(text@ =~= decimal_digits(*index as nat));
                AnyValue::StringOwned(text)
            },
            Data::Error(_) => AnyValue::Null,
            Data::Empty => AnyValue::Null,
        }
    }
}

/// A column of a sheet.
#[derive(Debug)]
pub struct Col<T> {
    pub y: u32,
    pub vec: Vec<T>,
}

/// Whether `after` is `before` with `data` in row `row`: rows that the column lacked
/// hold what an empty cell becomes. A row that the column has already is not
/// replaced; the value comes at the end.
pub open spec fn row_set<T: FromData>(
    before: Seq<T>,
    after: Seq<T>,
    row: int,
    data: Data,
) -> bool {
    let filled = if row > before.len() {
        row
    } else {
        before.len() as int
    };
    &&& after.len() == filled + 1
    &&& after.take(before.len() as int) == before
    &&& forall|i: int| before.len() <= i < filled ==> (#[trigger] after[i]).made_of(Data::Empty)
    &&& after[filled].made_of(data)
}

/// Whether the columns `after` are the columns `before` with a cell added: in its own
/// column, after columns without values where it lies beyond the last one.
pub open spec fn cell_added<T: FromData>(
    before: Seq<Col<T>>,
    after: Seq<Col<T>>,
    cell: Cell<Data>,
) -> bool {
    let col = cell.position().1 as int;
    let had = before.len();
    let values = if col < had {
        before[col].vec@
    } else {
        Seq::empty()
    };
    &&& after.len() == (if col < had {
        had as int
    } else {
        col + 1
    })
    &&& row_set(values, after[col].vec@, cell.position().0 as int, cell.value())
    &&& forall|i: int| 0 <= i < had && i != col ==> (#[trigger] after[i]).vec == before[i].vec
    &&& forall|i: int| had <= i < col ==> (#[trigger] after[i]).vec@ == Seq::<T>::empty()
}

/// The refusal of a cell that is not of the column.
pub open spec fn wrong_column(expected: u32, actual: u32) -> Failure {
    failure(
        ErrorKind::WrongColumn,
        "列序号错误: 期望 "@ + decimal_digits(expected as nat) + ", 实际 "@ + decimal_digits(
            actual as nat,
        ),
    )
}

impl<T: FromData> Col<T> {
    /// The number of the column.
    pub open spec fn number(&self) -> u32 {
        self.y
    }

    pub fn new(y: u32) -> (col: Self)
        ensures
            col.number() == y,
            col.vec@ == Seq::<T>::empty(),
    {
        Self { y, vec: Vec::new() }
    }

    /// Takes a cell of this column. A cell of another column is refused.
    pub fn push_cell(&mut self, cell: Cell<Data>) -> (taken: Result<(), XlsxError>)
        requires
            cell.position().0 < usize::MAX,
        ensures
            final(self).number() == old(self).number(),
            match taken {
                Ok(_) => cell.position().1 == old(self).number() && row_set(
                    old(self).vec@,
                    final(self).vec@,
                    cell.position().0 as int,
                    cell.value(),
                ),
                Err(e) => cell.position().1 != old(self).number() && e@ == wrong_column(
                    old(self).number(),
                    cell.position().1,
                ) && final(self).vec == old(self).vec,
            },
    {
        let (cell_x, cell_y) = cell.get_position();
        if cell_y != self.y {
            let mut message = "列序号错误: 期望 ".to_owned();
            push_decimal(&mut message, self.y as u64);
            message.append(", 实际 ");
            push_decimal(&mut message, cell_y as u64);
            return Err(XlsxError { kind: ErrorKind::WrongColumn, message });
        }
        let ghost before = self.vec@;
        assert(before.take(before.len() as int) =~= before);
        while self.vec.len() < cell_x as usize
            invariant
                self.y == old(self).y,
                before == old(self).vec@,
                before.len() <= self.vec.len(),
                self.vec.len() <= cell_x || self.vec.len() == before.len(),
                self.vec@.take(before.len() as int) == before,
                forall|i: int|
                    before.len() <= i < self.vec.len() ==> (#[trigger] self.vec@[i]).made_of(
                        Data::Empty,
                    ),
            decreases cell_x - self.vec.len(),
        {
            let ghost so_far = self.vec@;
            self.vec.push(T::from_data(&Data::Empty));
            assert(self.vec@.take(before.len() as int) =~= so_far.take(before.len() as int));
        }
        let ghost so_far = self.vec@;
        self.vec.push(T::from_data(cell.get_value()));
        assert(self.vec@.take(before.len() as int) =~= so_far.take(before.len() as int));
        Ok(())
    }
}

/// The columns of a sheet.
#[derive(Debug)]
pub struct Cols<T> {
    pub vecs: Vec<Col<T>>,
    /// The last row so far.
    pub max_x: usize,
    pub cell_cache: Option<Cell<Data>>,
    pub col_num: usize,
    pub headers: Vec<String>,
    pub first_batch_done: bool,
}

impl<T: FromData> Cols<T> {
    /// Whether each column has its number, and there are at least `col_num`.
    pub open spec fn wf(&self) -> bool {
        &&& forall|i: int| 0 <= i < self.vecs.len() ==> (#[trigger] self.vecs[i]).number() == i
        &&& self.col_num <= self.vecs.len()
        &&& self.col_num <= u32::MAX
    }

    /// Columns 0 to `num`, all of them empty.
    pub fn new(num: usize) -> (cols: Self)
        requires
            num < u32::MAX,
        ensures
            cols.wf(),
            cols.vecs.len() == num + 1,
            forall|i: int|
                0 <= i < cols.vecs.len() ==> (#[trigger] cols.vecs[i]).vec@ == Seq::<T>::empty(),
            cols.max_x == 0,
            cols.cell_cache is None,
            cols.col_num == num,
            cols.headers.len() == 0,
            !cols.first_batch_done,
    {
        let mut vecs: Vec<Col<T>> = Vec::with_capacity(num + 1);
        let mut i: usize = 0;
        while i <= num
            invariant
                num < u32::MAX,
                i <= num + 1,
                vecs.len() == i,
                forall|k: int| 0 <= k < i ==> (#[trigger] vecs[k]).number() == k,
                forall|k: int| 0 <= k < i ==> (#[trigger] vecs[k]).vec@ == Seq::<T>::empty(),
            decreases num + 1 - i,
        {
            vecs.push(Col::new(i as u32));
            i += 1;
        }
        Self {
            vecs,
            max_x: 0,
            cell_cache: None,
            col_num: num,
            headers: Vec::new(),
            first_batch_done: false,
        }
    }

    /// Takes a cell. Columns that are missing are added.
    pub fn push_cell(&mut self, cell: Cell<Data>) -> (taken: Result<(), XlsxError>)
        requires
            old(self).wf(),
            cell.position().0 < usize::MAX,
            cell.position().1 < u32::MAX,
        ensures
            taken is Ok,
            final(self).wf(),
            final(self).max_x == (if cell.position().0 > old(self).max_x {
                cell.position().0 as int
            } else {
                old(self).max_x as int
            }),
            final(self).cell_cache == old(self).cell_cache,
            final(self).col_num == old(self).col_num,
            final(self).headers == old(self).headers,
            final(self).first_batch_done == old(self).first_batch_done,
            cell_added(old(self).vecs@, final(self).vecs@, cell),
    {
        let (x, y) = cell.get_position();
        let x: usize = x as usize;
        let y: usize = y as usize;
        if x > self.max_x {
            self.max_x = x;
        }
        let ghost had = self.vecs.len() as int;
        let ghost last_row = self.max_x;
        while self.vecs.len() <= y
            invariant
                y < u32::MAX,
                self.max_x == last_row,
                had == old(self).vecs.len(),
                had <= self.vecs.len(),
                self.vecs.len() <= y + 1 || self.vecs.len() == had,
                *self == (Cols { vecs: self.vecs, max_x: self.max_x, ..*old(self) }),
                forall|i: int| 0 <= i < had ==> self.vecs@[i] == old(self).vecs@[i],
                forall|i: int| had <= i < self.vecs.len() ==> (#[trigger] self.vecs@[i]).number()
                    == i,
                forall|i: int|
                    had <= i < self.vecs.len() ==> (#[trigger] self.vecs@[i]).vec@ == Seq::<
                        T,
                    >::empty(),
            decreases y + 1 - self.vecs.len(),
        {
            let n: u32 = self.vecs.len() as u32;
            self.vecs.push(Col::new(n));
        }
        let ghost wide = self.vecs@;
        assert forall|i: int| 0 <= i < wide.len() implies (#[trigger] wide[i]).number() == i by {
            if i < had {
                assert(old(self).vecs[i].number() == i);
            }
        }
        let taken = self.vecs[y].push_cell(cell);
        taken
    }

    /// Nothing is left over between batches.
    pub fn clean_for_iter(&self) {
    }

    /// Takes a cell, unless it lies in a later row than all so far: it then belongs
    /// to the next batch and is given back.
    pub fn offer(&mut self, cell: Cell<Data>) -> (left: Option<Cell<Data>>)
        requires
            old(self).wf(),
            cell.position().0 < usize::MAX,
            cell.position().1 < u32::MAX,
        ensures
            final(self).wf(),
            final(self).col_num == old(self).col_num,
            final(self).headers == old(self).headers,
            final(self).first_batch_done == old(self).first_batch_done,
            final(self).max_x == old(self).max_x,
            final(self).cell_cache == old(self).cell_cache,
            match left {
                Some(c) => c == cell && cell.position().0 > old(self).max_x
                    && *final(self) == *old(self),
                None => cell.position().0 <= old(self).max_x && cell_added(
                    old(self).vecs@,
                    final(self).vecs@,
                    cell,
                ),
            },
    {
        if cell.get_position().0 as usize > self.max_x {
            return Some(cell);
        }
        let _taken = self.push_cell(cell);
        None
    }
}

/// The number of columns of a batch reader.
pub open spec fn columns_of(batch_size: usize, last_col: u32) -> int {
    if batch_size < last_col {
        batch_size as int
    } else {
        last_col as int
    }
}

/// There are no more columns than the batch size and than the last column, and as many as
/// one of them.
pub proof fn law_columns_are_bounded(batch_size: usize, last_col: u32)
    ensures
        columns_of(batch_size, last_col) <= batch_size,
        columns_of(batch_size, last_col) <= last_col,
        columns_of(batch_size, last_col) == batch_size || columns_of(batch_size, last_col)
            == last_col,
{
}

/// The number of columns of a batch reader: as many as the batch size, but not more
/// than the last column.
pub fn column_count(batch_size: usize, last_col: u32) -> (n: usize)
    ensures
        n == columns_of(batch_size, last_col),
{
    if (batch_size as u64) < last_col as u64 {
        batch_size
    } else {
        last_col as usize
    }
}

/// A column of a frame: its name and its values.
#[derive(Debug)]
pub struct NamedValues {
    pub name: String,
    pub values: Vec<AnyValue>,
}

/// The length of the longest column.
pub open spec fn longest_col(vecs: Seq<Col<AnyValue>>) -> int
    decreases vecs.len(),
{
    if vecs.len() == 0 {
        0
    } else {
        let rest = longest_col(vecs.drop_last());
        if vecs.last().vec.len() > rest {
            vecs.last().vec.len() as int
        } else {
            rest
        }
    }
}

/// The name of a column by its first value: the text where it is one, else the value
/// as it is shown; `col_` and its number where there is no header or no value.
pub open spec fn first_name(
    col: Seq<AnyValue>,
    i: int,
    has_header: bool,
    shown: Seq<char>,
) -> Seq<char> {
    if has_header && col.len() > 0 {
        match col[0] {
            AnyValue::StringOwned(s) => s@,
            _ => shown,
        }
    } else {
        "col_"@ + decimal_digits(i as nat)
    }
}

/// The values of a column in a frame: filled up with nulls to `height`, and without
/// the first one where that is the header.
pub open spec fn frame_values(col: Seq<AnyValue>, height: int, header: bool) -> Seq<AnyValue> {
    let more: nat = if height > col.len() {
        (height - col.len()) as nat
    } else {
        0
    };
    let filled = col + Seq::new(more, |i: int| AnyValue::Null);
    if header {
        filled.skip(1)
    } else {
        filled
    }
}

impl Cols<AnyValue> {
    fn name_from_first(&mut self, has_header: bool, shown: &Vec<String>)
        requires
            old(self).wf(),
            shown.len() >= old(self).col_num,
        ensures
            final(self).wf(),
            final(self).vecs == old(self).vecs,
            final(self).max_x == old(self).max_x,
            final(self).col_num == old(self).col_num,
            final(self).cell_cache == old(self).cell_cache,
            final(self).first_batch_done == old(self).first_batch_done,
            final(self).headers.len() == old(self).headers.len() + old(self).col_num,
            forall|i: int|
                0 <= i < old(self).headers.len() ==> final(self).headers@[i] == old(self).headers@[i],
            forall|i: int|
                0 <= i < old(self).col_num ==> (#[trigger] final(self).headers@[old(self).headers.len() + i])@ == first_name(
                    old(self).vecs[i].vec@,
                    i,
                    has_header,
                    shown[i]@,
                ),
    {
        let mut i: usize = 0;
        let ghost had = self.headers.len() as int;
        while i < self.col_num
            invariant
                i <= self.col_num,
                shown.len() >= self.col_num,
                self.wf(),
                *self == (Cols { headers: self.headers, ..*old(self) }),
                had == old(self).headers.len(),
                self.headers.len() == had + i,
                forall|k: int| 0 <= k < had ==> self.headers@[k] == old(self).headers@[k],
                forall|k: int|
                    0 <= k < i ==> (#[trigger] self.headers@[had + k])@ == first_name(
                        old(self).vecs[k].vec@,
                        k,
                        has_header,
                        shown[k]@,
                    ),
            decreases self.col_num - i,
        {
            let ghost before = self.headers@;
            let name: String = if has_header && self.vecs[i].vec.len() > 0 {
                match &self.vecs[i].vec[0] {
                    AnyValue::StringOwned(s) => s.clone(),
                    _ => shown[i].clone(),
                }
            } else {
                let mut text = "col_".to_owned();
                push_decimal(&mut text, i as u64);
                text
            };
            self.headers.push(name);
            assert(self.headers@[had + i] == name);
            assert forall|k: int| 0 <= k < i + 1 implies (#[trigger] self.headers@[had + k])@
                == first_name(old(self).vecs[k].vec@, k, has_header, shown[k]@) by {
                if k < i {
                    assert(self.headers@[had + k] == before[had + k]);
                }
            }
            i += 1;
        }
    }

    fn max_len(&self) -> (max: usize)
        ensures
            max == longest_col(self.vecs@),
    {
        let mut max: usize = 0;
        let mut i: usize = 0;
        while i < self.vecs.len()
            invariant
                i <= self.vecs.len(),
                max == longest_col(self.vecs@.take(i as int)),
            decreases self.vecs.len() - i,
        {
            let len: usize = self.vecs[i].vec.len();
            if len > max {
                max = len;
            }
            i += 1;
            assert(self.vecs@.take(i as int).drop_last() =~= self.vecs@.take(i - 1));
        }
        assert(self.vecs@.take(i as int) =~= self.vecs@);
        max
    }

    /// Hands out the columns, filled up with nulls to the longest, and leaves
    /// `col_num` empty ones behind. The first time, the columns are named; with a
    /// header, by their first values, which are then left out. `shown` is the first
    /// value of each column as it is shown where it is no text.
    pub fn into_dataframe(&mut self, has_header: bool, shown: &Vec<String>) -> (frame: Vec<
        NamedValues,
    >)
        requires
            old(self).wf(),
            shown.len() >= old(self).col_num,
            has_header && !old(self).first_batch_done ==> longest_col(old(self).vecs@) >= 1,
        ensures
            final(self).wf(),
            final(self).first_batch_done,
            final(self).max_x == old(self).max_x,
            final(self).col_num == old(self).col_num,
            final(self).cell_cache == old(self).cell_cache,
            final(self).vecs.len() == old(self).col_num,
            forall|i: int|
                0 <= i < old(self).headers.len() ==> final(self).headers@[i] == old(self).headers@[i],
            forall|i: int|
                0 <= i < final(self).vecs.len() ==> (#[trigger] final(self).vecs[i]).vec.len() == 0,
            old(self).first_batch_done ==> final(self).headers == old(self).headers,
            !old(self).first_batch_done ==> final(self).headers.len() == old(self).headers.len()
                + old(self).col_num && forall|i: int|
                0 <= i < old(self).col_num ==> (#[trigger] final(self).headers@[old(self).headers.len() + i])@ == first_name(
                    old(self).vecs[i].vec@,
                    i,
                    has_header,
                    shown[i]@,
                ),
            frame.len() == old(self).vecs.len(),
            forall|i: int|
                #![trigger frame[i]]
                0 <= i < frame.len() ==> {
                    &&& frame[i].values@ == frame_values(
                        old(self).vecs[i].vec@,
                        longest_col(old(self).vecs@),
                        has_header && !old(self).first_batch_done,
                    )
                    &&& frame[i].name@ == (if i < final(self).headers.len() {
                        final(self).headers@[i]@
                    } else {
                        "unknown"@
                    })
                },
    {
        let max_len: usize = self.max_len();
        let first = !self.first_batch_done;
        if first {
            self.name_from_first(has_header, shown);
            self.first_batch_done = true;
        }
        let header = first && has_header;
        let mut fresh: Vec<Col<AnyValue>> = Vec::new();
        let mut i: usize = 0;
        while i < self.col_num
            invariant
                i <= self.col_num,
                self.col_num <= u32::MAX,
                fresh.len() == i,
                forall|k: int| 0 <= k < i ==> (#[trigger] fresh[k]).number() == k,
                forall|k: int| 0 <= k < i ==> (#[trigger] fresh[k]).vec.len() == 0,
            decreases self.col_num - i,
        {
            fresh.push(Col::new(i as u32));
            i += 1;
        }
        core::mem::swap(&mut fresh, &mut self.vecs);
        let mut given = fresh;
        let ghost vecs = old(self).vecs@;
        assert(given@ == vecs);
        let mut frame: Vec<NamedValues> = Vec::new();
        let mut k: usize = 0;
        while k < given.len()
            invariant
                k <= given.len(),
                given.len() == vecs.len(),
                vecs == old(self).vecs@,
                max_len == longest_col(vecs),
                header ==> max_len >= 1,
                forall|j: int| k <= j < given.len() ==> given@[j] == vecs[j],
                frame.len() == k,
                forall|j: int|
                    #![trigger frame[j]]
                    0 <= j < k ==> {
                        &&& frame[j].values@ == frame_values(
                            vecs[j].vec@,
                            longest_col(vecs),
                            header,
                        )
                        &&& frame[j].name@ == (if j < self.headers.len() {
                            self.headers@[j]@
                        } else {
                            "unknown"@
                        })
                    },
            decreases given.len() - k,
        {
            let mut values: Vec<AnyValue> = Vec::new();
            core::mem::swap(&mut values, &mut given[k].vec);
            assert(values@ == vecs[k as int].vec@);
            let ghost own = values@;
            while values.len() < max_len
                invariant
                    own.len() <= values.len(),
                    values.len() <= max_len || values.len() == own.len(),
                    values@ == own + Seq::new(
                        (values.len() - own.len()) as nat,
                        |j: int| AnyValue::Null,
                    ),
                decreases max_len - values.len(),
            {
                values.push(AnyValue::Null);
                assert(values@ =~= own + Seq::new(
                    (values.len() - own.len()) as nat,
                    |j: int| AnyValue::Null,
                ));
            }
            if header {
                let ghost filled = values@;
                let _name = values.remove(0);
                assert(values@ =~= filled.skip(1));
            }
            assert(values@ =~= frame_values(own, longest_col(vecs), header));
            let name: String = if k < self.headers.len() {
                self.headers[k].clone()
            } else {
                "unknown".to_owned()
            };
            frame.push(NamedValues { name, values });
            k += 1;
        }
        frame
    }
}

/// A date is the same moment in the columns of a whole sheet as in those of a batch, for
/// serials whose parts are those of one time of day. Left out are day 0 and the invented
/// 29 February of the 1900 calendar.
pub proof fn law_readers_agree_on_dates(date: ExcelDateTime)
    requires
        near_serial(float_serial(date.number())),
        0 <= float_serial(date.number()).days,
        one_time_of_day(float_serial(date.number())),
        !date.from_1904() ==> float_serial(date.number()).days != 0 && float_serial(
            date.number(),
        ).days != 60,
    ensures
        calendar_item(Data::DateTime(date)) == data_item(Data::DateTime(date)),
{
    let serial = float_serial(date.number());
    law_parts_name_the_day(serial, date.from_1904());
    law_timestamp_counts_from_epoch(serial, date.from_1904());
    law_epoch_is_counted();
}

/// 1970-01-01 is the day that timestamps count from.
pub proof fn law_epoch_is_counted()
    ensures
        days_of_date(1970, 1, 1) == UNIX_EPOCH_INDEX,
        calendar_timestamp(1970, 1, 1, 0, 0, 0, 0) == Some(0int),
{
    reveal_with_fuel(crate::calendar::days_before_month, 3);
}

/// A value that is no date has the same entry in the columns of a whole sheet as in those
/// of a batch.
pub proof fn law_readers_agree_on_values(data: Data)
    requires
        !(data is DateTime),
    ensures
        calendar_item(data) == data_item(data),
{
}

/// A column of a frame is as high as the frame, less the header where that is taken from it:
/// it holds the values of the column in order, behind the header, and nulls after them.
pub proof fn law_frame_values(col: Seq<AnyValue>, height: int, header: bool)
    requires
        col.len() <= height,
        header ==> 1 <= height,
    ensures
        ({
            let values = frame_values(col, height, header);
            let first: int = if header {
                1
            } else {
                0
            };
            &&& values.len() == height - first
            &&& forall|i: int|
                0 <= i < values.len() ==> #[trigger] values[i] == (if i + first < col.len() {
                    col[i + first]
                } else {
                    AnyValue::Null
                })
        }),
{
}

/// Without a header the columns of a whole sheet are `col_0`, `col_1` and so on, no two
/// alike; with one, a column has the text that is its first value, and the value as it is
/// shown where that is no text.
pub proof fn law_first_names(col: Seq<AnyValue>, i: int, j: int, shown: Seq<char>)
    requires
        0 <= i,
        0 <= j,
    ensures
        ({
            let name = first_name(col, i, false, shown);
            &&& name.take(4) == "col_"@
            &&& unsigned_value(vstd::utf8::encode_utf8(name.skip(4)), i) == Some(i)
        }),
        i != j ==> first_name(col, i, false, shown) != first_name(col, j, false, shown),
        col.len() > 0 ==> (col[0] matches AnyValue::StringOwned(s) ==> first_name(
            col,
            i,
            true,
            shown,
        ) == s@),
        col.len() > 0 && !(col[0] is StringOwned) ==> first_name(col, i, true, shown) == shown,
        col.len() == 0 ==> first_name(col, i, true, shown) == first_name(col, i, false, shown),
{
    reveal_strlit("col_");
    let name = first_name(col, i, false, shown);
    let other = first_name(col, j, false, shown);
    assert(name.take(4) =~= "col_"@);
    assert(name.skip(4) =~= decimal_digits(i as nat));
    assert(other.skip(4) =~= decimal_digits(j as nat));
    law_decimal_reads_back(i);
    law_digits_differ(i as nat, j as nat);
}

/// A value that a column takes in a row that it lacks lies in that row, at its end; what it
/// held before stays, and the rows between hold what an empty cell becomes.
pub proof fn law_value_lies_in_its_row<T: FromData>(
    before: Seq<T>,
    after: Seq<T>,
    row: int,
    data: Data,
)
    requires
        row_set(before, after, row, data),
        before.len() <= row,
    ensures
        after.len() == row + 1,
        after[row].made_of(data),
        forall|i: int| 0 <= i < before.len() ==> #[trigger] after[i] == before[i],
        forall|i: int| before.len() <= i < row ==> (#[trigger] after[i]).made_of(Data::Empty),
{
    assert forall|i: int| 0 <= i < before.len() implies #[trigger] after[i] == before[i] by {
        assert(after.take(before.len() as int)[i] == after[i]);
    }
}

/// A cell lies in its own column and row, and the other columns stay as they are; columns
/// that are added before its own hold nothing.
pub proof fn law_cell_lies_in_its_column<T: FromData>(
    before: Seq<Col<T>>,
    after: Seq<Col<T>>,
    cell: Cell<Data>,
)
    requires
        cell_added(before, after, cell),
        cell.position().1 < before.len() ==> before[cell.position().1 as int].vec.len()
            <= cell.position().0,
    ensures
        cell.position().1 < after.len(),
        ({
            let col = after[cell.position().1 as int].vec@;
            &&& col.len() == cell.position().0 + 1
            &&& col[cell.position().0 as int].made_of(cell.value())
        }),
        forall|i: int|
            0 <= i < before.len() && i != cell.position().1 ==> (#[trigger] after[i]).vec
                == before[i].vec,
        forall|i: int|
            before.len() <= i < after.len() && i != cell.position().1 ==> (
            #[trigger] after[i]).vec.len() == 0,
{
}

/// The longest column is one of the columns, and none is longer; without columns it is
/// nothing.
pub proof fn law_longest_col(vecs: Seq<Col<AnyValue>>)
    ensures
        forall|i: int| 0 <= i < vecs.len() ==> (#[trigger] vecs[i]).vec.len() <= longest_col(vecs),
        longest_col(vecs) > 0 ==> exists|i: int|
            0 <= i < vecs.len() && (#[trigger] vecs[i]).vec.len() == longest_col(vecs),
        longest_col(vecs) >= 0,
    decreases vecs.len(),
{
    if vecs.len() > 0 {
        let front = vecs.drop_last();
        law_longest_col(front);
        assert forall|i: int| 0 <= i < vecs.len() implies (#[trigger] vecs[i]).vec.len()
            <= longest_col(vecs) by {
            if i < front.len() {
                assert(vecs[i] == front[i]);
            }
        }
        if longest_col(vecs) == longest_col(front) && longest_col(vecs) > 0 {
            let i = choose|i: int|
                0 <= i < front.len() && (#[trigger] front[i]).vec.len() == longest_col(front);
            assert(vecs[i] == front[i]);
        } else {
            assert(vecs[vecs.len() - 1].vec.len() == longest_col(vecs));
        }
    }
}

} // verus!
