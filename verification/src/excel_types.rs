//! Cell values of a worksheet.

use crate::calendar::{
    civil_year, days_before_year, days_of_date, in_year, is_leap_year, leap_year, month_and_day,
    month_of_day, year_and_day, UNIX_EPOCH_INDEX,
};
use crate::float::{float_serial, float_text, Float, SerialParts};
use crate::text::{decimal, decimal_digits, decimal_text, push_decimal, same_text};
use vstd::prelude::*;

verus! {

/// The position (row, column) of a cell, both counted from zero, and its value.
#[derive(Debug, Clone, PartialEq)]
pub struct Cell<T> {
    row: u32,
    col: u32,
    val: T,
}

impl<T> Cell<T> {
    /// The position the cell was made with.
    pub closed spec fn position(&self) -> (u32, u32) {
        (self.row, self.col)
    }

    /// The value the cell was made with.
    pub closed spec fn value(&self) -> T {
        self.val
    }

    pub fn new(position: (u32, u32), value: T) -> (cell: Self)
        ensures
            cell.position() == position,
            cell.value() == value,
    {
        Self { row: position.0, col: position.1, val: value }
    }

    pub fn get_position(&self) -> (position: (u32, u32))
        ensures
            position == self.position(),
    {
        (self.row, self.col)
    }

    pub fn get_value(&self) -> (value: &T)
        ensures
            *value == self.value(),
    {
        &self.val
    }

    pub fn into_value(self) -> (value: T)
        ensures
            value == self.value(),
    {
        self.val
    }
}

/// The errors a cell can hold in place of a value.
#[derive(Debug, Clone, Copy, PartialEq, Eq, Structural)]
pub enum CellErrorType {
    Div0,
    NA,
    Name,
    Null,
    Num,
    Ref,
    Value,
    GettingData,
}

/// The code a worksheet writes for an error.
pub open spec fn error_code(error: CellErrorType) -> Seq<char> {
    match error {
        CellErrorType::Div0 => "#DIV/0!"@,
        CellErrorType::NA => "#N/A"@,
        CellErrorType::Name => "#NAME?"@,
        CellErrorType::Null => "#NULL!"@,
        CellErrorType::Num => "#NUM!"@,
        CellErrorType::Ref => "#REF!"@,
        CellErrorType::Value => "#VALUE!"@,
        CellErrorType::GettingData => "#DATA!"@,
    }
}

/// No two errors share a code, so that the code of an error reads back as the error.
pub proof fn law_error_codes_differ(a: CellErrorType, b: CellErrorType)
    ensures
        error_code(a) == error_code(b) ==> a == b,
{
    reveal_strlit("#DIV/0!");
    reveal_strlit("#N/A");
    reveal_strlit("#NAME?");
    reveal_strlit("#NULL!");
    reveal_strlit("#NUM!");
    reveal_strlit("#REF!");
    reveal_strlit("#VALUE!");
    reveal_strlit("#DATA!");
    if error_code(a) == error_code(b) {
        assert(error_code(a).len() == error_code(b).len());
        assert(error_code(a)[1] == error_code(b)[1]);
        assert(error_code(a)[2] == error_code(b)[2]);
        assert(error_code(a)[3] == error_code(b)[3]);
    }
}

/// The codes of the errors, as every worksheet writes them.
pub proof fn law_error_codes()
    ensures
        error_code(CellErrorType::Div0) == seq!['#', 'D', 'I', 'V', '/', '0', '!'],
        error_code(CellErrorType::NA) == seq!['#', 'N', '/', 'A'],
        error_code(CellErrorType::Name) == seq!['#', 'N', 'A', 'M', 'E', '?'],
        error_code(CellErrorType::Null) == seq!['#', 'N', 'U', 'L', 'L', '!'],
        error_code(CellErrorType::Num) == seq!['#', 'N', 'U', 'M', '!'],
        error_code(CellErrorType::Ref) == seq!['#', 'R', 'E', 'F', '!'],
        error_code(CellErrorType::Value) == seq!['#', 'V', 'A', 'L', 'U', 'E', '!'],
        error_code(CellErrorType::GettingData) == seq!['#', 'D', 'A', 'T', 'A', '!'],
{
    reveal_strlit("#DIV/0!");
    reveal_strlit("#N/A");
    reveal_strlit("#NAME?");
    reveal_strlit("#NULL!");
    reveal_strlit("#NUM!");
    reveal_strlit("#REF!");
    reveal_strlit("#VALUE!");
    reveal_strlit("#DATA!");
    assert(error_code(CellErrorType::Div0) =~= seq!['#', 'D', 'I', 'V', '/', '0', '!']);
    assert(error_code(CellErrorType::NA) =~= seq!['#', 'N', '/', 'A']);
    assert(error_code(CellErrorType::Name) =~= seq!['#', 'N', 'A', 'M', 'E', '?']);
    assert(error_code(CellErrorType::Null) =~= seq!['#', 'N', 'U', 'L', 'L', '!']);
    assert(error_code(CellErrorType::Num) =~= seq!['#', 'N', 'U', 'M', '!']);
    assert(error_code(CellErrorType::Ref) =~= seq!['#', 'R', 'E', 'F', '!']);
    assert(error_code(CellErrorType::Value) =~= seq!['#', 'V', 'A', 'L', 'U', 'E', '!']);
    assert(error_code(CellErrorType::GettingData) =~= seq!['#', 'D', 'A', 'T', 'A', '!']);
}

impl CellErrorType {
    /// The code of the error, as a worksheet writes it.
    pub fn as_str(&self) -> (code: &'static str)
        ensures
            code@ == error_code(*self),
    {
        match self {
            CellErrorType::Div0 => "#DIV/0!",
            CellErrorType::NA => "#N/A",
            CellErrorType::Name => "#NAME?",
            CellErrorType::Null => "#NULL!",
            CellErrorType::Num => "#NUM!",
            CellErrorType::Ref => "#REF!",
            CellErrorType::Value => "#VALUE!",
            CellErrorType::GettingData => "#DATA!",
        }
    }

    /// The error that a code stands for. `Err` exactly where the text is the
    /// code of no error.
    pub fn from_str(s: &str) -> (error: Result<CellErrorType, ()>)
        ensures
            match error {
                Ok(e) => error_code(e) == s@,
                Err(_) => forall|e: CellErrorType| error_code(e) != s@,
            },
    {
        if same_text(s, "#DIV/0!") {
            Ok(CellErrorType::Div0)
        } else if same_text(s, "#N/A") {
            Ok(CellErrorType::NA)
        } else if same_text(s, "#NAME?") {
            Ok(CellErrorType::Name)
        } else if same_text(s, "#NULL!") {
            Ok(CellErrorType::Null)
        } else if same_text(s, "#NUM!") {
            Ok(CellErrorType::Num)
        } else if same_text(s, "#REF!") {
            Ok(CellErrorType::Ref)
        } else if same_text(s, "#VALUE!") {
            Ok(CellErrorType::Value)
        } else if same_text(s, "#DATA!") {
            Ok(CellErrorType::GettingData)
        } else {
            Err(())
        }
    }
}

/// A date and time of a worksheet: a serial number, and whether it counts in
/// the calendar that starts in 1904.
#[derive(Debug, Clone, PartialEq)]
pub struct ExcelDateTime {
    value: Float,
    is_1904: bool,
}

/// An integer reduced to the range of `i64`, wrapping round at its ends.
pub open spec fn wrap_i64(n: int) -> int {
    (n + 0x8000_0000_0000_0000) % 0x1_0000_0000_0000_0000 - 0x8000_0000_0000_0000
}

/// An integer moved to the nearest end of the range `low` to `high`.
pub open spec fn clamp(n: int, low: int, high: int) -> int {
    if n < low {
        low
    } else if n > high {
        high
    } else {
        n
    }
}

/// The whole days of a serial as the number of days since 1970-01-01.
pub open spec fn unix_days(days: int, is_1904: bool) -> int {
    if is_1904 {
        days - 24_107
    } else if 1 <= days <= 60 {
        days - 25_568
    } else {
        days - 25_569
    }
}

/// A serial in nanoseconds since 1970-01-01.
pub open spec fn timestamp_nanos(serial: SerialParts, is_1904: bool) -> int {
    let days = clamp(serial.days as int, i64::MIN as int, i64::MAX as int);
    wrap_i64(unix_days(days, is_1904) * 86_400_000_000_000 + serial.day_millis * 1_000_000)
}

/// The day that the whole days of a serial stand for, counted from 1600-01-01.
pub open spec fn serial_index(days: int, is_1904: bool) -> int {
    let shift: int = if is_1904 {
        111_033
    } else if days > 365 {
        109_571
    } else {
        109_572
    };
    (days + shift) % 0x1_0000_0000_0000_0000
}

/// The year, month and day of the whole days of a serial. The calendar of 1900
/// counts a 29 February in 1900 that never was.
pub open spec fn serial_date(days: int, is_1904: bool) -> (int, int, int) {
    let index = serial_index(days, is_1904);
    let year = civil_year(index);
    let year_1900 = !is_1904 && year == 1900;
    let last_day: int = if year_1900 && days == 366 {
        1
    } else {
        0
    };
    let (month, day) = month_and_day(
        index - days_before_year(year) + 1 + last_day,
        1,
        leap_year(year) || year_1900,
    );
    (year, month, day)
}

/// The seconds of the day of a serial, and the milliseconds beyond them.
pub open spec fn serial_time(serial: SerialParts) -> (int, int) {
    if serial.milli == 1000 {
        ((serial.day_seconds + 1) % 0x1_0000_0000_0000_0000, 0)
    } else {
        (serial.day_seconds as int, serial.milli as int)
    }
}

/// A date and a time of day.
pub struct DateParts {
    pub year: int,
    pub month: int,
    pub day: int,
    pub hour: int,
    pub minute: int,
    pub second: int,
    pub milli: int,
}

/// The date and the time of day of a serial, each part reduced to its width.
pub open spec fn date_parts(serial: SerialParts, is_1904: bool) -> DateParts {
    let days = clamp(serial.days as int, 0, u64::MAX as int);
    let (year, month, day) = serial_date(days, is_1904);
    let (seconds, milli) = serial_time(serial);
    DateParts {
        year: year % 0x1_0000,
        month: month % 0x100,
        day: day % 0x100,
        hour: (seconds / 3600) % 0x100,
        minute: seconds % 3600 / 60,
        second: seconds % 60,
        milli: milli % 0x1_0000,
    }
}

fn wrapped(n: i128) -> (w: i64)
    requires
        -0x1_0000_0000_0000_0000_0000_0000_0000 < n < 0x1_0000_0000_0000_0000_0000_0000_0000,
    ensures
        w == wrap_i64(n as int),
{
    let shifted: u128 = (n + 0x1_0000_0000_0000_0000_0000_0000_0000
        + 0x8000_0000_0000_0000) as u128;
    let rest: u128 = shifted % 0x1_0000_0000_0000_0000;
    (rest as i128 - 0x8000_0000_0000_0000) as i64
}

impl ExcelDateTime {
    /// The serial number.
    pub closed spec fn number(&self) -> Float {
        self.value
    }

    /// Whether the serial counts from 1904.
    pub closed spec fn from_1904(&self) -> bool {
        self.is_1904
    }

    pub fn new(value: Float, is_1904: bool) -> (date: Self)
        ensures
            date.number() == value,
            date.from_1904() == is_1904,
    {
        Self { value, is_1904 }
    }

    /// A copy of the date.
    pub fn copy(&self) -> (date: Self)
        ensures
            date == *self,
    {
        Self { value: self.value.copy(), is_1904: self.is_1904 }
    }

    /// The serial number.
    pub fn as_f64(&self) -> (value: &Float)
        ensures
            *value == self.number(),
    {
        &self.value
    }

    /// The date in nanoseconds since 1970-01-01, wrapping round where it leaves
    /// the range of `i64`.
    ///
    /// The 1900 calendar starts at 1899-12-30, so that it agrees with the
    /// Gregorian calendar from day 61 on; days 1 to 60 are one day ahead. The 1904
    /// calendar starts at 1904-01-01, which lies 24107 days before 1970-01-01.
    pub fn to_timestamp_nanos(&self) -> (nanos: i64)
        ensures
            nanos == timestamp_nanos(float_serial(self.number()), self.from_1904()),
    {
        let serial = self.value.serial();
        let days: i128 = if serial.days < i64::MIN as i128 {
            i64::MIN as i128
        } else if serial.days > i64::MAX as i128 {
            i64::MAX as i128
        } else {
            serial.days
        };
        let unix_days: i128 = if self.is_1904 {
            days - 24_107
        } else if days > 60 {
            days - 25_569
        } else if days >= 1 {
            days - 25_568
        } else {
            days - 25_569
        };
        wrapped(unix_days * 86_400_000_000_000 + serial.day_millis as i128 * 1_000_000)
    }

    /// Year, month, day, hour, minute, second and millisecond, each reduced to
    /// the width of its type.
    pub fn to_ymd_hms_milli(&self) -> (parts: (u16, u8, u8, u8, u8, u8, u16))
        ensures
            ({
                let shown = date_parts(float_serial(self.number()), self.from_1904());
                &&& parts.0 == shown.year
                &&& parts.1 == shown.month
                &&& parts.2 == shown.day
                &&& parts.3 == shown.hour
                &&& parts.4 == shown.minute
                &&& parts.5 == shown.second
                &&& parts.6 == shown.milli
            }),
    {
        let serial = self.value.serial();
        let days: u64 = if serial.days < 0 {
            0
        } else if serial.days > u64::MAX as i128 {
            u64::MAX
        } else {
            serial.days as u64
        };
        let (year, month, day) = date_of_serial(days, self.is_1904);
        let (seconds, milli) = time_of_serial(&serial);
        (
            (year % 0x1_0000) as u16,
            (month % 0x100) as u8,
            (day % 0x100) as u8,
            (seconds / 3600 % 0x100) as u8,
            (seconds % 3600 / 60) as u8,
            (seconds % 60) as u8,
            (milli % 0x1_0000) as u16,
        )
    }
}

impl Default for ExcelDateTime {
    fn default() -> (date: Self)
        ensures
            date.number() == Float::OfInt(0),
            !date.from_1904(),
    {
        ExcelDateTime { value: Float::OfInt(0), is_1904: false }
    }
}

/// The year, month and day of the whole days of a serial.
fn date_of_serial(days: u64, is_1904: bool) -> (date: (u64, u64, u64))
    ensures
        (date.0 as int, date.1 as int, date.2 as int) == serial_date(days as int, is_1904),
{
    let index: u64 = if is_1904 {
        days.wrapping_add(111_033)
    } else if days > 365 {
        days.wrapping_add(109_571)
    } else {
        days.wrapping_add(109_572)
    };
    assert(index == serial_index(days as int, is_1904));
    let (year, year_day) = year_and_day(index);
    assert(year_day < 366) by {
        crate::calendar::lemma_year_length(year as int);
    }
    let mut leap = is_leap_year(year);
    let mut count: u64 = year_day + 1;
    if !is_1904 && year == 1900 {
        leap = true;
        if days == 366 {
            count += 1;
        }
    }
    let (month, day) = month_of_day(count, leap);
    (year, month, day)
}

/// The seconds of the day of a serial, and the milliseconds beyond them.
fn time_of_serial(serial: &SerialParts) -> (time: (u64, u64))
    ensures
        (time.0 as int, time.1 as int) == serial_time(*serial),
{
    if serial.milli == 1000 {
        (serial.day_seconds.wrapping_add(1), 0)
    } else {
        (serial.day_seconds, serial.milli)
    }
}

/// The timestamp and the calendar agree: the day that `to_timestamp_nanos`
/// counts is the day that `to_ymd_hms_milli` names. Left out are day 0 and the
/// invented 29 February 1900 of the 1900 calendar, and serials beyond the range of
/// `i64`.
pub proof fn law_timestamp_is_calendar_date(days: int, is_1904: bool)
    requires
        0 <= days < i64::MAX - 200_000,
        !is_1904 ==> days != 0 && days != 60,
    ensures
        ({
            let (year, month, day) = serial_date(days, is_1904);
            days_of_date(year, month, day) - UNIX_EPOCH_INDEX == unix_days(days, is_1904)
        }),
{
    let index = serial_index(days, is_1904);
    let year = civil_year(index);
    lemma_serial_year(index);
    crate::calendar::lemma_year_length(year);
    crate::calendar::lemma_year_of_months(leap_year(year));
    let count = index - days_before_year(year) + 1;
    assert(days_before_year(1900) == 109_573);
    if is_1904 {
        crate::calendar::lemma_month_and_day(count, 1, leap_year(year));
    } else if days <= 366 {
        assert(in_year(index, 1900));
        crate::calendar::lemma_civil_year_unique(index, 1900);
        crate::calendar::lemma_year_of_months(true);
        let shown = if days == 366 { count + 1 } else { count };
        assert(shown == days);
        crate::calendar::lemma_month_and_day(shown, 1, true);
        let (m, d) = month_and_day(shown, 1, true);
        lemma_leap_day_shift(m);
        assert(serial_date(days, false) == (1900int, m, d));
    } else {
        assert(days_before_year(1901) == 109_938);
        if year < 1900 {
            crate::calendar::lemma_years_ordered(year + 1, 1901);
        }
        crate::calendar::lemma_month_and_day(count, 1, leap_year(year));
    }
}

/// Whether the parts of a serial are those of one time of day, less than a day: the
/// milliseconds of the day are its seconds and the milliseconds beyond them.
pub open spec fn one_time_of_day(serial: SerialParts) -> bool {
    &&& 0 <= serial.day_millis < 86_400_000
    &&& serial.day_millis == serial.day_seconds * 1000 + serial.milli
    &&& serial.milli <= 1000
}

/// Whether a serial is one whose timestamp fits in 64 bits.
pub open spec fn near_serial(serial: SerialParts) -> bool {
    -80_000 <= serial.days <= 130_000
}

/// A serial stands for the day that lies its whole days after the first of its calendar,
/// 1899-12-30 and 1904-01-01: the timestamp counts the nanoseconds from 1970-01-01 to that
/// day, and to its time of day. Before 1 March 1900 the calendar of 1900 is a day ahead.
/// The 29 February 1900 that it invents is the 60th day, and is counted as the day after.
pub proof fn law_timestamp_counts_from_epoch(serial: SerialParts, is_1904: bool)
    requires
        near_serial(serial),
        one_time_of_day(serial),
    ensures
        ({
            let first = if is_1904 {
                days_of_date(1904, 1, 1)
            } else if 1 <= serial.days <= 60 {
                days_of_date(1899, 12, 31)
            } else {
                days_of_date(1899, 12, 30)
            };
            let epoch = days_of_date(1970, 1, 1);
            timestamp_nanos(serial, is_1904) == ((first + serial.days - epoch) * 24 * 60 * 60 * 1000
                + serial.day_millis) * 1000 * 1000
        }),
{
    reveal_with_fuel(crate::calendar::days_before_month, 13);
    assert(days_of_date(1904, 1, 1) - days_of_date(1970, 1, 1) == -24_107);
    assert(days_of_date(1899, 12, 31) - days_of_date(1970, 1, 1) == -25_568);
    assert(days_of_date(1899, 12, 30) - days_of_date(1970, 1, 1) == -25_569);
}

/// Far from its calendar a serial is counted in the same way, and wraps round where the
/// nanoseconds leave the range of 64 bits.
pub proof fn law_timestamp_wraps(serial: SerialParts, is_1904: bool)
    requires
        i64::MIN <= serial.days <= i64::MAX,
    ensures
        ({
            let first = if is_1904 {
                days_of_date(1904, 1, 1)
            } else if 1 <= serial.days <= 60 {
                days_of_date(1899, 12, 31)
            } else {
                days_of_date(1899, 12, 30)
            };
            let epoch = days_of_date(1970, 1, 1);
            let nanos = (first + serial.days - epoch) * 86_400_000_000_000 + serial.day_millis
                * 1_000_000;
            let stamp = timestamp_nanos(serial, is_1904);
            &&& i64::MIN <= stamp <= i64::MAX
            &&& (nanos - stamp) % 0x1_0000_0000_0000_0000 == 0
        }),
{
    lemma_first_days();
    let nanos = unix_days(serial.days as int, is_1904) * 86_400_000_000_000 + serial.day_millis
        * 1_000_000;
    let m: int = 0x1_0000_0000_0000_0000;
    let shifted = nanos + 0x8000_0000_0000_0000;
    vstd::arithmetic::div_mod::lemma_fundamental_div_mod(shifted, m);
    vstd::arithmetic::div_mod::lemma_mod_multiples_basic(shifted / m, m);
    assert(nanos - wrap_i64(nanos) == shifted / m * m);
}

/// The timestamp grows as time does: by a million with each millisecond, and by a day
/// with each day from the 61st on.
pub proof fn law_timestamp_grows(a: SerialParts, b: SerialParts, is_1904: bool)
    requires
        near_serial(a),
        near_serial(b),
        one_time_of_day(a),
        one_time_of_day(b),
        is_1904 || 61 <= a.days && 61 <= b.days,
    ensures
        timestamp_nanos(b, is_1904) - timestamp_nanos(a, is_1904) == (b.days - a.days)
            * 86_400_000_000_000 + (b.day_millis - a.day_millis) * 1_000_000,
{
    law_timestamp_counts_from_epoch(a, is_1904);
    law_timestamp_counts_from_epoch(b, is_1904);
}

/// The parts of a serial name a date of the calendar and a time of day: the day that lies
/// its whole days after the first of its calendar, and the time that its milliseconds of
/// the day make. The calendar of 1900 has a 29 February in 1900, its 60th day, and is a
/// day ahead before it.
pub proof fn law_parts_name_the_day(serial: SerialParts, is_1904: bool)
    requires
        0 <= serial.days <= 20_000_000,
        one_time_of_day(serial),
    ensures
        ({
            let parts = date_parts(serial, is_1904);
            let first = if is_1904 {
                days_of_date(1904, 1, 1)
            } else if serial.days <= 59 {
                days_of_date(1899, 12, 31)
            } else {
                days_of_date(1899, 12, 30)
            };
            &&& 1 <= parts.month <= 12
            &&& if !is_1904 && serial.days == 60 {
                (parts.year, parts.month, parts.day) == (1900int, 2int, 29int)
            } else {
                &&& 1 <= parts.day <= crate::calendar::month_length(
                    parts.month,
                    leap_year(parts.year),
                )
                &&& days_of_date(parts.year, parts.month, parts.day) == first + serial.days
            }
            &&& 0 <= parts.hour < 24
            &&& 0 <= parts.minute < 60
            &&& 0 <= parts.second < 60
            &&& 0 <= parts.milli < 1000
            &&& ((parts.hour * 60 + parts.minute) * 60 + parts.second) * 1000 + parts.milli
                == serial.day_millis
        }),
{
    lemma_parts_are_shown(serial, is_1904);
    lemma_first_days();
    lemma_date_is_shown(serial.days as int, is_1904);
    if is_1904 || serial.days != 60 {
        lemma_day_is_counted(serial.days as int, is_1904);
    }
}

proof fn lemma_day_is_counted(days: int, is_1904: bool)
    requires
        0 <= days <= 20_000_000,
        is_1904 || days != 60,
    ensures
        ({
            let (year, month, day) = serial_date(days, is_1904);
            days_of_date(year, month, day) == days + (if is_1904 {
                111_033
            } else if days <= 59 {
                109_572
            } else {
                109_571int
            })
        }),
{
    lemma_first_days();
    if is_1904 || days != 0 {
        law_timestamp_is_calendar_date(days, is_1904);
    } else {
        lemma_date_is_shown(days, is_1904);
    }
}

proof fn lemma_parts_are_shown(serial: SerialParts, is_1904: bool)
    requires
        0 <= serial.days <= 20_000_000,
        one_time_of_day(serial),
    ensures
        ({
            let parts = date_parts(serial, is_1904);
            &&& (parts.year, parts.month, parts.day) == serial_date(serial.days as int, is_1904)
            &&& 0 <= parts.hour < 24
            &&& 0 <= parts.minute < 60
            &&& 0 <= parts.second < 60
            &&& 0 <= parts.milli < 1000
            &&& ((parts.hour * 60 + parts.minute) * 60 + parts.second) * 1000 + parts.milli
                == serial.day_millis
        }),
{
    lemma_date_is_shown(serial.days as int, is_1904);
    lemma_time_is_shown(serial);
    let (year, month, day) = serial_date(serial.days as int, is_1904);
    let (seconds, milli) = serial_time(serial);
    lemma_hours(seconds);
}

proof fn lemma_hours(seconds: int)
    requires
        0 <= seconds < 86_400,
    ensures
        0 <= (seconds / 3600) % 0x100 < 24,
        0 <= seconds % 3600 / 60 < 60,
        0 <= seconds % 60 < 60,
        ((seconds / 3600) % 0x100 * 60 + seconds % 3600 / 60) * 60 + seconds % 60 == seconds,
{
    assert(seconds % 60 == seconds % 3600 % 60);
}

proof fn lemma_first_days()
    ensures
        days_of_date(1904, 1, 1) == 111_033,
        days_of_date(1899, 12, 31) == 109_572,
        days_of_date(1899, 12, 30) == 109_571,
        days_of_date(1970, 1, 1) == UNIX_EPOCH_INDEX,
{
    reveal_with_fuel(crate::calendar::days_before_month, 13);
}

proof fn lemma_time_is_shown(serial: SerialParts)
    requires
        one_time_of_day(serial),
    ensures
        ({
            let (seconds, milli) = serial_time(serial);
            &&& seconds * 1000 + milli == serial.day_millis
            &&& 0 <= seconds < 86_400
            &&& 0 <= milli < 1000
        }),
{
}

/// The date of a serial is one of the calendar, but for the 60th day.
proof fn lemma_date_is_shown(days: int, is_1904: bool)
    requires
        0 <= days <= 20_000_000,
    ensures
        ({
            let (year, month, day) = serial_date(days, is_1904);
            &&& 1600 <= year < 0x1_0000
            &&& 1 <= month <= 12
            &&& 1 <= day <= 31
            &&& is_1904 || days != 60 ==> day <= crate::calendar::month_length(
                month,
                leap_year(year),
            )
            &&& !is_1904 && days == 60 ==> (year, month, day) == (1900int, 2int, 29int)
            &&& !is_1904 && days == 0 ==> (year, month, day) == (1899int, 12int, 31int)
        }),
{
    let index = serial_index(days, is_1904);
    let year = civil_year(index);
    lemma_serial_year(index);
    lemma_year_bounds(index);
    crate::calendar::lemma_year_length(year);
    crate::calendar::lemma_year_of_months(leap_year(year));
    let count = index - days_before_year(year) + 1;
    assert(days_before_year(1900) == 109_573);
    if !is_1904 && 1 <= days <= 366 {
        assert(in_year(index, 1900));
        crate::calendar::lemma_civil_year_unique(index, 1900);
        lemma_date_in_1900(days);
    } else if !is_1904 && days == 0 {
        assert(days_before_year(1899) == 109_208);
        assert(in_year(index, 1899));
        crate::calendar::lemma_civil_year_unique(index, 1899);
        assert(count == 365);
        reveal_with_fuel(month_and_day, 13);
    } else {
        if !is_1904 {
            assert(days_before_year(1901) == 109_938);
            if year < 1900 {
                crate::calendar::lemma_years_ordered(year + 1, 1901);
            }
        }
        crate::calendar::lemma_month_and_day(count, 1, leap_year(year));
    }
}

proof fn lemma_date_in_1900(days: int)
    requires
        1 <= days <= 366,
    ensures
        ({
            let (month, day) = month_and_day(days, 1, true);
            &&& 1 <= month <= 12
            &&& 1 <= day <= 31
            &&& days != 60 ==> day <= crate::calendar::month_length(month, false)
            &&& days == 60 ==> (month, day) == (2int, 29int)
        }),
{
    crate::calendar::lemma_year_of_months(true);
    crate::calendar::lemma_month_and_day(days, 1, true);
    reveal_with_fuel(month_and_day, 4);
}

/// The year of a day lies between 1600 and 1600 and the days in years.
proof fn lemma_year_bounds(index: int)
    requires
        0 <= index <= 21_000_000,
    ensures
        1600 <= civil_year(index) < 0x1_0000,
{
    let year = civil_year(index);
    lemma_serial_year(index);
    if year < 1600 {
        if year + 1 < 1600 {
            crate::calendar::lemma_years_ordered(year + 1, 1600);
        }
        assert(days_before_year(1600) == 0);
    }
    if year > 65_535 {
        if year > 65_536 {
            crate::calendar::lemma_years_ordered(65_536, year);
        }
        assert(days_before_year(65_536) > 21_000_000);
    }
}

/// The timestamp and the parts of a serial agree on the time of day: what the timestamp
/// has beyond whole days are the hours, minutes, seconds and milliseconds of the parts.
pub proof fn law_timestamp_is_time_of_day(serial: SerialParts, is_1904: bool)
    requires
        near_serial(serial),
        0 <= serial.days,
        one_time_of_day(serial),
    ensures
        ({
            let parts = date_parts(serial, is_1904);
            timestamp_nanos(serial, is_1904) % 86_400_000_000_000 == parts.hour * 3_600_000_000_000
                + parts.minute * 60_000_000_000 + parts.second * 1_000_000_000 + parts.milli
                * 1_000_000
        }),
{
    law_timestamp_counts_from_epoch(serial, is_1904);
    law_parts_name_the_day(serial, is_1904);
    let nanos = timestamp_nanos(serial, is_1904);
    let rest = serial.day_millis * 1_000_000;
    assert(nanos % 86_400_000_000_000 == rest) by {
        let days = (nanos - rest) / 86_400_000_000_000;
        assert(nanos == days * 86_400_000_000_000 + rest);
        vstd::arithmetic::div_mod::lemma_fundamental_div_mod_converse(
            nanos,
            86_400_000_000_000,
            days,
            rest,
        );
    }
}

proof fn lemma_serial_year(index: int)
    requires
        0 <= index < 0x1_0000_0000_0000_0000,
    ensures
        in_year(index, civil_year(index)),
{
    crate::calendar::lemma_some_year(index);
}

proof fn lemma_leap_day_shift(month: int)
    requires
        1 <= month <= 13,
    ensures
        crate::calendar::days_before_month(month, true) == crate::calendar::days_before_month(
            month,
            false,
        ) + (if month > 2 {
            1int
        } else {
            0int
        }),
        month <= 2 ==> crate::calendar::days_before_month(month, true) <= 31,
        month > 2 ==> crate::calendar::days_before_month(month, true) >= 60,
    decreases month,
{
    reveal_with_fuel(crate::calendar::days_before_month, 4);
    if month > 1 {
        lemma_leap_day_shift(month - 1);
    }
}

/// The value of a cell.
#[derive(Debug, Clone, PartialEq)]
pub enum Data {
    Int(i64),
    Float(Float),
    String(String),
    Bool(bool),
    DateTime(ExcelDateTime),
    DateTimeIso(String),
    DurationIso(String),
    Error(CellErrorType),
    /// The index of an entry of the workbook's shared strings.
    SharedStringRef(usize),
    Empty,
}

/// The text of a value.
pub open spec fn data_text(data: Data) -> Seq<char> {
    match data {
        Data::Int(n) => decimal(n as int),
        Data::Float(number) => float_text(number),
        Data::String(s) => s@,
        Data::Bool(b) => bool_text(b),
        Data::DateTime(date) => float_text(date.number()),
        Data::DateTimeIso(s) => s@,
        Data::DurationIso(s) => s@,
        Data::Error(error) => error_code(error),
        Data::SharedStringRef(index) => decimal_digits(index as nat),
        Data::Empty => Seq::empty(),
    }
}

/// The text of a boolean.
pub open spec fn bool_text(b: bool) -> Seq<char> {
    if b {
        "true"@
    } else {
        "false"@
    }
}

/// Whether a value counts as missing: an empty cell or an error.
pub open spec fn is_null_data(data: Data) -> bool {
    data is Empty || data is Error
}

impl Data {
    /// The text of the value. Text that the value already holds is moved out.
    pub fn into_text(self) -> (text: String)
        ensures
            text@ == data_text(self),
    {
        match self {
            Data::String(s) => s,
            Data::Int(n) => decimal_text(n),
            Data::Float(number) => number.text(),
            Data::Bool(b) => if b {
                "true".to_owned()
            } else {
                "false".to_owned()
            },
            Data::DateTime(date) => date.as_f64().text(),
            Data::DateTimeIso(s) => s,
            Data::DurationIso(s) => s,
            Data::Error(error) => error.as_str().to_owned(),
            Data::SharedStringRef(index) => {
                let mut out = String::new();
                push_decimal(&mut out, index as u64);
                assert(out@ =~= decimal_digits(index as nat));
                out
            },
            Data::Empty => String::new(),
        }
    }

    /// A copy of the value.
    pub fn copy(&self) -> (data: Data)
        ensures
            data == *self,
    {
        match self {
            Data::Int(n) => Data::Int(*n),
            Data::Float(number) => Data::Float(number.copy()),
            Data::String(s) => Data::String(s.clone()),
            Data::Bool(b) => Data::Bool(*b),
            Data::DateTime(date) => Data::DateTime(date.copy()),
            Data::DateTimeIso(s) => Data::DateTimeIso(s.clone()),
            Data::DurationIso(s) => Data::DurationIso(s.clone()),
            Data::Error(error) => Data::Error(*error),
            Data::SharedStringRef(index) => Data::SharedStringRef(*index),
            Data::Empty => Data::Empty,
        }
    }

    /// Whether the value counts as missing.
    pub fn is_null(&self) -> (null: bool)
        ensures
            null == is_null_data(*self),
    {
        match self {
            Data::Empty => true,
            Data::Error(_) => true,
            _ => false,
        }
    }
}

impl Cell<Data> {
    /// The text of the cell's value.
    pub fn into_text(self) -> (text: String)
        ensures
            text@ == data_text(self.value()),
    {
        self.val.into_text()
    }
}

impl Default for Data {
    fn default() -> (data: Self)
        ensures
            data == Data::Empty,
    {
        Data::Empty
    }
}

/// The corners of the used range of a worksheet, as (row, column).
#[derive(Debug, Clone, Copy, PartialEq, Eq)]
pub struct Dimensions {
    pub start: (u32, u32),
    pub end: (u32, u32),
}

impl Default for Dimensions {
    fn default() -> (dimensions: Self)
        ensures
            dimensions == (Dimensions { start: (0, 0), end: (0, 0) }),
    {
        Dimensions { start: (0, 0), end: (0, 0) }
    }
}

} // verus!
