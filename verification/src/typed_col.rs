//! A column of a batch, stored by the type of its values.

use crate::arrow::{
    bit_at, bits, count_buffers, count_bytes, freeze, frozen_is_null, frozen_len, frozen_texts,
    frozen_value, new_bitmap, new_texts, push_bit, push_null_text, push_shared_text, push_text,
    texts, texts_len, whole_buffers, buffered_bytes, SharedStrings, TextArray, RESERVE_LIMIT,
};
use crate::excel_types::{bool_text, data_text, error_code, timestamp_nanos, Data};
use crate::float::{
    float_serial, float_text, law_small_integer_is_exact, power_of_ten, Float,
};
use crate::text::{
    decimal, decimal_digits, decimal_text, law_decimal_reads_back, push_decimal, signed_value,
    unsigned_value,
};
use polars_arrow::bitmap::MutableBitmap;
use vstd::prelude::*;
use vstd::utf8::*;

verus! {

/// The type of a column's values.
#[derive(Debug, Clone, Copy, PartialEq, Eq, Structural)]
pub enum DataType {
    Null,
    Boolean,
    Int64,
    Float64,
    String,
    /// Nanoseconds since 1970-01-01.
    Datetime,
}

/// A value of a column of mixed types.
#[derive(Debug, Clone, PartialEq)]
pub enum AnyValue {
    Null,
    Int64(i64),
    Float64(Float),
    Boolean(bool),
    StringOwned(String),
    /// Nanoseconds since 1970-01-01.
    Datetime(i64),
}

/// An entry of a column, as contracts speak of it.
pub enum Item {
    Null,
    Int(i64),
    Float(Float),
    Bool(bool),
    Text(Seq<char>),
    Datetime(i64),
}

impl View for AnyValue {
    type V = Item;

    open spec fn view(&self) -> Item {
        match self {
            AnyValue::Null => Item::Null,
            AnyValue::Int64(n) => Item::Int(*n),
            AnyValue::Float64(x) => Item::Float(*x),
            AnyValue::Boolean(b) => Item::Bool(*b),
            AnyValue::StringOwned(s) => Item::Text(s@),
            AnyValue::Datetime(n) => Item::Datetime(*n),
        }
    }
}

/// A column, stored by the type of its values. The bitmaps say which entries are
/// not null.
#[derive(Debug)]
pub enum TypedCol {
    Int64(Vec<i64>, MutableBitmap),
    Float64(Vec<Float>, MutableBitmap),
    Bool(Vec<bool>, MutableBitmap),
    String(TextArray),
    DateTime(Vec<i64>, MutableBitmap),
    AnyValue(Vec<AnyValue>),
    Empty,
}

/// How a column is stored.
pub enum Storage {
    Int64,
    Float64,
    Bool,
    String,
    DateTime,
    AnyValue,
    Empty,
}

/// How a column is stored.
pub open spec fn storage(col: TypedCol) -> Storage {
    match col {
        TypedCol::Int64(_, _) => Storage::Int64,
        TypedCol::Float64(_, _) => Storage::Float64,
        TypedCol::Bool(_, _) => Storage::Bool,
        TypedCol::String(_) => Storage::String,
        TypedCol::DateTime(_, _) => Storage::DateTime,
        TypedCol::AnyValue(_) => Storage::AnyValue,
        TypedCol::Empty => Storage::Empty,
    }
}

/// Values under a bitmap: null where the bit is not set.
pub open spec fn masked<T>(values: Seq<T>, valid: Seq<bool>, item: spec_fn(T) -> Item) -> Seq<
    Item,
> {
    Seq::new(
        values.len(),
        |i: int|
            if valid[i] {
                item(values[i])
            } else {
                Item::Null
            },
    )
}

/// Optional texts as entries of a column.
pub open spec fn text_items(array: Seq<Option<Seq<char>>>) -> Seq<Item> {
    array.map_values(
        |t: Option<Seq<char>>|
            match t {
                Some(text) => Item::Text(text),
                None => Item::Null,
            },
    )
}

/// Integers under a bitmap as entries of a column.
pub open spec fn int_items(values: Seq<i64>, valid: Seq<bool>) -> Seq<Item> {
    masked(values, valid, |n: i64| Item::Int(n))
}

/// Floating-point numbers under a bitmap as entries of a column.
pub open spec fn float_items(values: Seq<Float>, valid: Seq<bool>) -> Seq<Item> {
    masked(values, valid, |x: Float| Item::Float(x))
}

/// Booleans under a bitmap as entries of a column.
pub open spec fn bool_items(values: Seq<bool>, valid: Seq<bool>) -> Seq<Item> {
    masked(values, valid, |b: bool| Item::Bool(b))
}

/// Timestamps under a bitmap as entries of a column.
pub open spec fn datetime_items(values: Seq<i64>, valid: Seq<bool>) -> Seq<Item> {
    masked(values, valid, |n: i64| Item::Datetime(n))
}

/// Values of mixed types as entries of a column.
pub open spec fn any_items(values: Seq<AnyValue>) -> Seq<Item> {
    values.map_values(|v: AnyValue| v@)
}

impl View for TypedCol {
    type V = Seq<Item>;

    open spec fn view(&self) -> Seq<Item> {
        match self {
            TypedCol::Int64(v, b) => int_items(v@, bits(*b)),
            TypedCol::Float64(v, b) => float_items(v@, bits(*b)),
            TypedCol::Bool(v, b) => bool_items(v@, bits(*b)),
            TypedCol::String(array) => text_items(texts(*array)),
            TypedCol::DateTime(v, b) => datetime_items(v@, bits(*b)),
            TypedCol::AnyValue(v) => any_items(v@),
            TypedCol::Empty => Seq::empty(),
        }
    }
}

/// Whether a text is short enough for a text column.
pub open spec fn text_fits(text: Seq<char>) -> bool {
    encode_utf8(text).len() <= u32::MAX
}

/// Whether the text of a value is short enough for a text column.
pub open spec fn data_fits(data: Data) -> bool {
    match data {
        Data::String(s) => text_fits(s@),
        Data::DateTimeIso(s) => text_fits(s@),
        Data::DurationIso(s) => text_fits(s@),
        Data::Float(x) => text_fits(float_text(x)),
        _ => true,
    }
}

/// Whether a value of the column's storage can take the value as it is.
pub open spec fn takes(s: Storage, data: Data) -> bool {
    match s {
        Storage::AnyValue => true,
        Storage::Int64 => data is Int || data is Empty || data is Error,
        Storage::Float64 => data is Float || data is Int || data is Empty || data is Error,
        Storage::Bool => data is Bool || data is Empty || data is Error,
        Storage::String => data is String || data is SharedStringRef || data is DateTimeIso
            || data is DurationIso || data is Empty || data is Error,
        Storage::DateTime => data is DateTime || data is Empty || data is Error,
        Storage::Empty => data is Empty || data is Error,
    }
}

/// A value as an entry of a column of mixed types.
pub open spec fn data_item(data: Data) -> Item {
    match data {
        Data::Int(n) => Item::Int(n),
        Data::Float(x) => Item::Float(x),
        Data::Bool(b) => Item::Bool(b),
        Data::String(s) => Item::Text(s@),
        Data::DateTime(date) => Item::Datetime(
            timestamp_nanos(float_serial(date.number()), date.from_1904()) as i64,
        ),
        Data::DateTimeIso(s) => Item::Text(s@),
        Data::DurationIso(s) => Item::Text(s@),
        Data::SharedStringRef(index) => Item::Text(decimal_digits(index as nat)),
        Data::Error(_) => Item::Null,
        Data::Empty => Item::Null,
    }
}

/// Whether a value has a text of its own: a missing one has none, and that of a place
/// in the shared strings stands there.
pub open spec fn has_text(data: Data) -> bool {
    !(data_item(data) is Null) && !(data is SharedStringRef)
}

/// What a value becomes in a column of some storage; `None` where such a column
/// has no place for it.
pub open spec fn stored_item(s: Storage, data: Data) -> Option<Item> {
    match s {
        Storage::Int64 => match data {
            Data::Int(n) => Some(Item::Int(n)),
            _ => None,
        },
        Storage::Float64 => match data {
            Data::Float(x) => Some(Item::Float(x)),
            Data::Int(n) => Some(Item::Float(Float::OfInt(n))),
            _ => None,
        },
        Storage::Bool => match data {
            Data::Bool(b) => Some(Item::Bool(b)),
            _ => None,
        },
        Storage::String => if has_text(data) {
            Some(Item::Text(item_text(data_item(data))))
        } else {
            None
        },
        Storage::DateTime => match data {
            Data::DateTime(_) => Some(data_item(data)),
            _ => None,
        },
        Storage::AnyValue => Some(data_item(data)),
        Storage::Empty => None,
    }
}

/// Entries with one more at the end, if there is one more.
pub open spec fn pushed(items: Seq<Item>, item: Option<Item>) -> Seq<Item> {
    match item {
        Some(i) => items.push(i),
        None => items,
    }
}

/// The text of an entry that is not null.
pub open spec fn item_text(item: Item) -> Seq<char> {
    match item {
        Item::Int(n) => decimal(n as int),
        Item::Float(x) => float_text(x),
        Item::Bool(b) => bool_text(b),
        Item::Text(t) => t,
        Item::Datetime(n) => decimal(n as int),
        Item::Null => Seq::empty(),
    }
}

/// Entries turned into texts; nulls stay null.
pub open spec fn as_texts(items: Seq<Item>) -> Seq<Item> {
    items.map_values(
        |item: Item|
            if item is Null {
                item
            } else {
                Item::Text(item_text(item))
            },
    )
}

/// Integer entries turned into floating-point numbers; nulls stay null.
pub open spec fn as_floats(items: Seq<Item>) -> Seq<Item> {
    items.map_values(
        |item: Item|
            match item {
                Item::Int(n) => Item::Float(Float::OfInt(n)),
                other => other,
            },
    )
}

/// How a column is stored after it was made to take another type.
pub open spec fn upgraded_storage(s: Storage, target: DataType) -> Storage {
    if s is Int64 && target == DataType::Float64 {
        Storage::Float64
    } else if target == DataType::String && (s is Int64 || s is Float64 || s is Bool
        || s is DateTime) {
        Storage::String
    } else {
        Storage::AnyValue
    }
}

/// The entries of a column after it was made to take another type.
pub open spec fn upgraded_items(s: Storage, items: Seq<Item>, target: DataType) -> Seq<Item> {
    match upgraded_storage(s, target) {
        Storage::Float64 => as_floats(items),
        Storage::String => as_texts(items),
        _ => items,
    }
}

/// How a column is stored after it was filled up with nulls to a length.
pub open spec fn padded_storage(s: Storage, length: int) -> Storage {
    if s is Empty && length > 0 {
        Storage::AnyValue
    } else {
        s
    }
}

/// `n` nulls.
pub open spec fn nulls(n: int) -> Seq<Item> {
    Seq::new(
        if n > 0 {
            n as nat
        } else {
            0
        },
        |i: int| Item::Null,
    )
}

proof fn lemma_decimal_is_short(n: nat, k: nat)
    requires
        n < power_of_ten(k),
        k >= 1,
    ensures
        decimal_digits(n).len() <= k,
        is_ascii_chars(decimal_digits(n)),
    decreases n,
{
    if n >= 10 {
        if k == 1 {
            assert(power_of_ten(1) == 10 * power_of_ten(0));
        }
        lemma_decimal_is_short(n / 10, (k - 1) as nat);
    }
}

/// Numbers in decimal notation are short enough for a text column.
pub proof fn lemma_decimal_fits(n: int)
    requires
        -0x1_0000_0000_0000_0000 < n < 0x1_0000_0000_0000_0000,
    ensures
        text_fits(decimal(n)),
{
    assert(power_of_ten(20) == 100_000_000_000_000_000_000) by {
        reveal_with_fuel(power_of_ten, 21);
    }
    let size = if n < 0 {
        (-n) as nat
    } else {
        n as nat
    };
    lemma_decimal_is_short(size, 20);
    assert(is_ascii_chars(decimal(n)));
    is_ascii_chars_encode_utf8(decimal(n));
}

/// Integers read as floating-point numbers are short enough for a text column.
pub proof fn lemma_double_fits(n: i64)
    ensures
        text_fits(float_text(Float::OfInt(n))),
{
    assert(power_of_ten(20) == 100_000_000_000_000_000_000) by {
        reveal_with_fuel(power_of_ten, 21);
    }
    let text = float_text(Float::OfInt(n));
    let digits = crate::float::shortest_decimal(
        crate::float::nearest_double(crate::float::magnitude(n as int)),
        19,
    );
    crate::float::lemma_double_digits(n);
    lemma_decimal_is_short(digits, 20);
    assert(is_ascii_chars(text));
    is_ascii_chars_encode_utf8(text);
}

/// Whether a text is short enough for a text column.
pub fn fits(text: &str) -> (fit: bool)
    ensures
        fit == text_fits(text@),
{
    text.as_bytes().len() as u64 <= u32::MAX as u64
}

/// Whether the text of a value is short enough for a text column.
pub fn value_fits(data: &Data) -> (fit: bool)
    ensures
        fit == data_fits(*data),
{
    match data {
        Data::String(s) => fits(s.as_str()),
        Data::DateTimeIso(s) => fits(s.as_str()),
        Data::DurationIso(s) => fits(s.as_str()),
        Data::Float(x) => fits(x.text().as_str()),
        _ => true,
    }
}

fn push_optional(array: &mut TextArray, valid: bool, text: &str)
    requires
        text_fits(text@),
    ensures
        texts(*final(array)) == texts(*old(array)).push(
            if valid {
                Some(text@)
            } else {
                None
            },
        ),
{
    if valid {
        push_text(array, text);
    } else {
        push_null_text(array);
    }
}

/// The entries that space is reserved for in advance: as many as asked for, up to a
/// limit.
fn hint(capacity: usize) -> (capped: usize)
    ensures
        capped == (if capacity > RESERVE_LIMIT {
            RESERVE_LIMIT
        } else {
            capacity
        }),
{
    if capacity > RESERVE_LIMIT {
        RESERVE_LIMIT
    } else {
        capacity
    }
}

fn ints_to_texts(values: &Vec<i64>, valid: &MutableBitmap) -> (array: TextArray)
    requires
        values.len() == bits(*valid).len(),
    ensures
        text_items(texts(array)) == as_texts(int_items(values@, bits(*valid))),
        text_items(texts(array)) == as_texts(datetime_items(values@, bits(*valid))),
{
    let mut array = new_texts(hint(values.len()));
    let ghost wanted = as_texts(int_items(values@, bits(*valid)));
    let mut i: usize = 0;
    while i < values.len()
        invariant
            i <= values.len(),
            values.len() == bits(*valid).len(),
            wanted == as_texts(int_items(values@, bits(*valid))),
            text_items(texts(array)) == wanted.take(i as int),
        decreases values.len() - i,
    {
        proof {
            lemma_decimal_fits(values[i as int] as int);
        }
        let ghost before = texts(array);
        push_optional(&mut array, bit_at(valid, i), decimal_text(values[i]).as_str());
        i += 1;
        assert(text_items(texts(array)) =~= text_items(before).push(wanted[i - 1]));
        assert(wanted.take(i as int) =~= wanted.take(i - 1).push(wanted[i - 1]));
    }
    assert(wanted.take(i as int) =~= wanted);
    assert(wanted =~= as_texts(datetime_items(values@, bits(*valid))));
    array
}

fn floats_to_texts(values: &Vec<Float>, valid: &MutableBitmap) -> (array: TextArray)
    requires
        values.len() == bits(*valid).len(),
        forall|i: int| 0 <= i < values.len() ==> text_fits(float_text(#[trigger] values[i])),
    ensures
        text_items(texts(array)) == as_texts(float_items(values@, bits(*valid))),
{
    let mut array = new_texts(hint(values.len()));
    let ghost wanted = as_texts(float_items(values@, bits(*valid)));
    let mut i: usize = 0;
    while i < values.len()
        invariant
            i <= values.len(),
            values.len() == bits(*valid).len(),
            forall|k: int| 0 <= k < values.len() ==> text_fits(float_text(#[trigger] values[k])),
            wanted == as_texts(float_items(values@, bits(*valid))),
            text_items(texts(array)) == wanted.take(i as int),
        decreases values.len() - i,
    {
        let ghost before = texts(array);
        push_optional(&mut array, bit_at(valid, i), values[i].text().as_str());
        i += 1;
        assert(text_items(texts(array)) =~= text_items(before).push(wanted[i - 1]));
        assert(wanted.take(i as int) =~= wanted.take(i - 1).push(wanted[i - 1]));
    }
    assert(wanted.take(i as int) =~= wanted);
    array
}

fn bools_to_texts(values: &Vec<bool>, valid: &MutableBitmap) -> (array: TextArray)
    requires
        values.len() == bits(*valid).len(),
    ensures
        text_items(texts(array)) == as_texts(bool_items(values@, bits(*valid))),
{
    let mut array = new_texts(hint(values.len()));
    let ghost wanted = as_texts(bool_items(values@, bits(*valid)));
    let mut i: usize = 0;
    while i < values.len()
        invariant
            i <= values.len(),
            values.len() == bits(*valid).len(),
            wanted == as_texts(bool_items(values@, bits(*valid))),
            text_items(texts(array)) == wanted.take(i as int),
        decreases values.len() - i,
    {
        proof {
            reveal_strlit("true");
            reveal_strlit("false");
            is_ascii_chars_encode_utf8("true"@);
            is_ascii_chars_encode_utf8("false"@);
        }
        let ghost before = texts(array);
        let text = if values[i] {
            "true"
        } else {
            "false"
        };
        push_optional(&mut array, bit_at(valid, i), text);
        i += 1;
        assert(text_items(texts(array)) =~= text_items(before).push(wanted[i - 1]));
        assert(wanted.take(i as int) =~= wanted.take(i - 1).push(wanted[i - 1]));
    }
    assert(wanted.take(i as int) =~= wanted);
    array
}

fn ints_to_floats(values: &Vec<i64>) -> (floats: Vec<Float>)
    ensures
        floats@ == values@.map_values(|n: i64| Float::OfInt(n)),
{
    let mut floats: Vec<Float> = Vec::with_capacity(values.len());
    let mut i: usize = 0;
    while i < values.len()
        invariant
            i <= values.len(),
            floats@ == values@.take(i as int).map_values(|n: i64| Float::OfInt(n)),
        decreases values.len() - i,
    {
        floats.push(Float::OfInt(values[i]));
        i += 1;
        assert(floats@ =~= values@.take(i as int).map_values(|n: i64| Float::OfInt(n)));
    }
    assert(values@.take(i as int) =~= values@);
    floats
}

fn ints_to_any(values: &Vec<i64>, valid: &MutableBitmap, datetime: bool) -> (any: Vec<AnyValue>)
    requires
        values.len() == bits(*valid).len(),
    ensures
        any_items(any@) == (if datetime {
            datetime_items(values@, bits(*valid))
        } else {
            int_items(values@, bits(*valid))
        }),
{
    let mut any: Vec<AnyValue> = Vec::with_capacity(values.len());
    let ghost wanted = if datetime {
        datetime_items(values@, bits(*valid))
    } else {
        int_items(values@, bits(*valid))
    };
    let mut i: usize = 0;
    while i < values.len()
        invariant
            i <= values.len(),
            values.len() == bits(*valid).len(),
            wanted == (if datetime {
                datetime_items(values@, bits(*valid))
            } else {
                int_items(values@, bits(*valid))
            }),
            any_items(any@) == wanted.take(i as int),
        decreases values.len() - i,
    {
        let ghost before = any@;
        let value = if !bit_at(valid, i) {
            AnyValue::Null
        } else if datetime {
            AnyValue::Datetime(values[i])
        } else {
            AnyValue::Int64(values[i])
        };
        any.push(value);
        i += 1;
        assert(any_items(any@) =~= any_items(before).push(wanted[i - 1]));
        assert(wanted.take(i as int) =~= wanted.take(i - 1).push(wanted[i - 1]));
    }
    assert(wanted.take(i as int) =~= wanted);
    any
}

fn floats_to_any(values: Vec<Float>, valid: &MutableBitmap) -> (any: Vec<AnyValue>)
    requires
        values.len() == bits(*valid).len(),
    ensures
        any_items(any@) == float_items(values@, bits(*valid)),
{
    let mut values = values;
    let ghost given = values@;
    let mut any: Vec<AnyValue> = Vec::with_capacity(values.len());
    let ghost wanted = float_items(values@, bits(*valid));
    let mut i: usize = 0;
    while i < values.len()
        invariant
            i <= values.len(),
            values.len() == bits(*valid).len(),
            given.len() == values.len(),
            forall|k: int| i <= k < values.len() ==> values@[k] == given[k],
            wanted == float_items(given, bits(*valid)),
            any_items(any@) == wanted.take(i as int),
        decreases values.len() - i,
    {
        let ghost before = any@;
        let mut x = Float::OfInt(0);
        core::mem::swap(&mut x, &mut values[i]);
        if bit_at(valid, i) {
            any.push(AnyValue::Float64(x));
        } else {
            any.push(AnyValue::Null);
        }
        i += 1;
        assert(any_items(any@) =~= any_items(before).push(wanted[i - 1]));
        assert(wanted.take(i as int) =~= wanted.take(i - 1).push(wanted[i - 1]));
    }
    assert(wanted.take(i as int) =~= wanted);
    any
}

fn bools_to_any(values: &Vec<bool>, valid: &MutableBitmap) -> (any: Vec<AnyValue>)
    requires
        values.len() == bits(*valid).len(),
    ensures
        any_items(any@) == bool_items(values@, bits(*valid)),
{
    let mut any: Vec<AnyValue> = Vec::with_capacity(values.len());
    let ghost wanted = bool_items(values@, bits(*valid));
    let mut i: usize = 0;
    while i < values.len()
        invariant
            i <= values.len(),
            values.len() == bits(*valid).len(),
            wanted == bool_items(values@, bits(*valid)),
            any_items(any@) == wanted.take(i as int),
        decreases values.len() - i,
    {
        let ghost before = any@;
        if bit_at(valid, i) {
            any.push(AnyValue::Boolean(values[i]));
        } else {
            any.push(AnyValue::Null);
        }
        i += 1;
        assert(any_items(any@) =~= any_items(before).push(wanted[i - 1]));
        assert(wanted.take(i as int) =~= wanted.take(i - 1).push(wanted[i - 1]));
    }
    assert(wanted.take(i as int) =~= wanted);
    any
}

fn texts_to_any(array: TextArray) -> (any: Vec<AnyValue>)
    ensures
        any_items(any@) == text_items(texts(array)),
{
    let ghost wanted = text_items(texts(array));
    let frozen = freeze(array);
    let len: usize = frozen_len(&frozen);
    let mut any: Vec<AnyValue> = Vec::with_capacity(len);
    let mut i: usize = 0;
    while i < len
        invariant
            i <= len,
            len == frozen_texts(frozen).len(),
            wanted == text_items(frozen_texts(frozen)),
            any_items(any@) == wanted.take(i as int),
        decreases len - i,
    {
        let ghost before = any@;
        if frozen_is_null(&frozen, i) {
            any.push(AnyValue::Null);
        } else {
            any.push(AnyValue::StringOwned(frozen_value(&frozen, i).to_owned()));
        }
        i += 1;
        assert(any_items(any@) =~= any_items(before).push(wanted[i - 1]));
        assert(wanted.take(i as int) =~= wanted.take(i - 1).push(wanted[i - 1]));
    }
    assert(wanted.take(i as int) =~= wanted);
    any
}

/// The text of a value in a column of texts, `None` where it has no text of its own. A
/// date is given in nanoseconds since 1970-01-01.
fn column_text(data: Data) -> (text: Option<String>)
    requires
        data_fits(data),
    ensures
        match text {
            Some(t) => has_text(data) && t@ == item_text(data_item(data)) && text_fits(t@),
            None => !has_text(data),
        },
{
    match data {
        Data::String(s) => Some(s),
        Data::DateTimeIso(s) => Some(s),
        Data::DurationIso(s) => Some(s),
        Data::Int(n) => {
            proof {
                lemma_decimal_fits(n as int);
            }
            Some(decimal_text(n))
        },
        Data::Float(x) => Some(x.text()),
        Data::Bool(b) => {
            proof {
                reveal_strlit("true");
                reveal_strlit("false");
                is_ascii_chars_encode_utf8("true"@);
                is_ascii_chars_encode_utf8("false"@);
            }
            if b {
                Some("true".to_owned())
            } else {
                Some("false".to_owned())
            }
        },
        Data::DateTime(date) => {
            let nanos: i64 = date.to_timestamp_nanos();
            proof {
                lemma_decimal_fits(nanos as int);
            }
            Some(decimal_text(nanos))
        },
        Data::SharedStringRef(_) => None,
        Data::Error(_) => None,
        Data::Empty => None,
    }
}

impl TypedCol {
    /// Whether the bitmaps match the values and the numbers are short enough for a
    /// text column.
    pub open spec fn wf(&self) -> bool {
        match self {
            TypedCol::Int64(v, b) => v.len() == bits(*b).len(),
            TypedCol::Float64(v, b) => v.len() == bits(*b).len() && forall|i: int|
                0 <= i < v.len() ==> text_fits(float_text(#[trigger] v[i])),
            TypedCol::Bool(v, b) => v.len() == bits(*b).len(),
            TypedCol::DateTime(v, b) => v.len() == bits(*b).len(),
            _ => true,
        }
    }

    /// An empty column for values of a type.
    pub fn new(dtype: &DataType, capacity: usize) -> (col: Self)
        ensures
            col.wf(),
            col@ == Seq::<Item>::empty(),
            storage(col) == (match *dtype {
                DataType::Int64 => Storage::Int64,
                DataType::Float64 => Storage::Float64,
                DataType::Boolean => Storage::Bool,
                DataType::String => Storage::String,
                DataType::Datetime => Storage::DateTime,
                DataType::Null => Storage::AnyValue,
            }),
            col matches TypedCol::String(array) ==> whole_buffers(array) == 0 && buffered_bytes(
                array,
            ) == 0,
    {
        let capacity: usize = hint(capacity);
        let col = match dtype {
            DataType::Int64 => TypedCol::Int64(Vec::with_capacity(capacity), new_bitmap(capacity)),
            DataType::Float64 => TypedCol::Float64(
                Vec::with_capacity(capacity),
                new_bitmap(capacity),
            ),
            DataType::Boolean => TypedCol::Bool(Vec::with_capacity(capacity), new_bitmap(capacity)),
            DataType::String => TypedCol::String(new_texts(capacity)),
            DataType::Datetime => TypedCol::DateTime(
                Vec::with_capacity(capacity),
                new_bitmap(capacity),
            ),
            DataType::Null => TypedCol::AnyValue(Vec::with_capacity(capacity)),
        };
        assert(col@ =~= Seq::<Item>::empty());
        col
    }

    pub fn is_empty(&self) -> (empty: bool)
        ensures
            empty == (self@.len() == 0),
    {
        self.len() == 0
    }

    /// The number of entries.
    pub fn len(&self) -> (len: usize)
        ensures
            len == self@.len(),
    {
        match self {
            TypedCol::Int64(v, _) => v.len(),
            TypedCol::Float64(v, _) => v.len(),
            TypedCol::Bool(v, _) => v.len(),
            TypedCol::String(array) => texts_len(array),
            TypedCol::DateTime(v, _) => v.len(),
            TypedCol::AnyValue(v) => v.len(),
            TypedCol::Empty => 0,
        }
    }

    /// The number of whole buffers that a text column refers to, and the bytes in
    /// all its buffers.
    pub fn buffer_usage(&self) -> (usage: Option<(usize, usize)>)
        ensures
            match usage {
                Some((whole, bytes)) => *self matches TypedCol::String(array) && whole
                    == whole_buffers(array) && bytes == buffered_bytes(array),
                None => !(self is String),
            },
    {
        match self {
            TypedCol::String(array) => Some((count_buffers(array), count_bytes(array))),
            _ => None,
        }
    }

    /// Appends a null. A column without storage stays empty.
    pub fn push_null(&mut self)
        requires
            old(self).wf(),
        ensures
            final(self).wf(),
            storage(*final(self)) == storage(*old(self)),
            final(self)@ == (if *old(self) is Empty {
                old(self)@
            } else {
                old(self)@.push(Item::Null)
            }),
    {
        proof {
            lemma_double_fits(0);
        }
        match self {
            TypedCol::Int64(v, b) => {
                v.push(0);
                push_bit(b, false);
            },
            TypedCol::Float64(v, b) => {
                v.push(Float::OfInt(0));
                push_bit(b, false);
            },
            TypedCol::Bool(v, b) => {
                v.push(false);
                push_bit(b, false);
            },
            TypedCol::String(array) => {
                push_null_text(array);
            },
            TypedCol::DateTime(v, b) => {
                v.push(0);
                push_bit(b, false);
            },
            TypedCol::AnyValue(v) => {
                v.push(AnyValue::Null);
            },
            TypedCol::Empty => {},
        }
        assert(!(*old(self) is Empty) ==> self@ =~= old(self)@.push(Item::Null));
    }

    /// Appends nulls up to a length. A column without storage that gets nulls becomes
    /// one of mixed types.
    pub fn pad_to(&mut self, target_len: usize)
        requires
            old(self).wf(),
        ensures
            final(self).wf(),
            storage(*final(self)) == padded_storage(storage(*old(self)), target_len as int),
            final(self)@ == old(self)@ + nulls(target_len - old(self)@.len()),
    {
        if let TypedCol::Empty = self {
            if target_len == 0 {
                assert(self@ =~= self@ + nulls(0));
                return;
            }
            *self = TypedCol::AnyValue(Vec::new());
            assert(self@ =~= old(self)@);
        }
        let ghost before = self@;
        let ghost kind = storage(*self);
        assert(self@ =~= before + nulls(0));
        while self.len() < target_len
            invariant
                self.wf(),
                !(*self is Empty),
                storage(*self) == kind,
                before.len() <= self@.len(),
                self@ == before + nulls(self@.len() - before.len()),
                self@.len() <= target_len || self@ == before,
            decreases target_len - self@.len(),
        {
            let ghost so_far = self@;
            self.push_null();
            assert(self@ =~= before + nulls(so_far.len() + 1 - before.len()));
        }
        assert(self@ =~= before + nulls(target_len - before.len()));
    }

    /// Whether the column can take a value as it is.
    pub fn accepts(&self, data: &Data) -> (accepted: bool)
        ensures
            accepted == takes(storage(*self), *data),
    {
        match (self, data) {
            (TypedCol::AnyValue(_), _) => true,
            (_, Data::Empty) => true,
            (_, Data::Error(_)) => true,
            (TypedCol::Int64(_, _), Data::Int(_)) => true,
            (TypedCol::Float64(_, _), Data::Float(_)) => true,
            (TypedCol::Float64(_, _), Data::Int(_)) => true,
            (TypedCol::Bool(_, _), Data::Bool(_)) => true,
            (TypedCol::String(_), Data::String(_)) => true,
            (TypedCol::String(_), Data::SharedStringRef(_)) => true,
            (TypedCol::String(_), Data::DateTimeIso(_)) => true,
            (TypedCol::String(_), Data::DurationIso(_)) => true,
            (TypedCol::DateTime(_, _), Data::DateTime(_)) => true,
            _ => false,
        }
    }

    /// Appends a value that is not missing. A column of texts takes a value as its
    /// text, and none for a place in the shared strings (see `push_shared_string_ref`);
    /// a value that another storage has no place for is dropped.
    pub fn push_value(&mut self, data: Data)
        requires
            old(self).wf(),
            data_fits(data),
        ensures
            final(self).wf(),
            storage(*final(self)) == storage(*old(self)),
            final(self)@ == pushed(old(self)@, stored_item(storage(*old(self)), data)),
    {
        match self {
            TypedCol::Int64(v, b) => {
                if let Data::Int(n) = data {
                    v.push(n);
                    push_bit(b, true);
                }
            },
            TypedCol::Float64(v, b) => {
                match data {
                    Data::Float(x) => {
                        v.push(x);
                        push_bit(b, true);
                    },
                    Data::Int(n) => {
                        proof {
                            lemma_double_fits(n);
                        }
                        v.push(Float::OfInt(n));
                        push_bit(b, true);
                    },
                    _ => {},
                }
            },
            TypedCol::Bool(v, b) => {
                if let Data::Bool(value) = data {
                    v.push(value);
                    push_bit(b, true);
                }
            },
            TypedCol::String(array) => {
                match column_text(data) {
                    Some(text) => push_text(array, text.as_str()),
                    None => {},
                }
            },
            TypedCol::DateTime(v, b) => {
                if let Data::DateTime(date) = data {
                    v.push(date.to_timestamp_nanos());
                    push_bit(b, true);
                }
            },
            TypedCol::AnyValue(v) => {
                v.push(any_value(data));
            },
            TypedCol::Empty => {},
        }
        assert(self@ =~= pushed(old(self)@, stored_item(storage(*old(self)), data)));
    }

    /// Appends a text to a column of texts or of mixed types; any other column
    /// stays as it is.
    pub fn push_str(&mut self, s: &str)
        requires
            old(self).wf(),
            text_fits(s@),
        ensures
            final(self).wf(),
            storage(*final(self)) == storage(*old(self)),
            final(self)@ == (if *old(self) is String || *old(self) is AnyValue {
                old(self)@.push(Item::Text(s@))
            } else {
                old(self)@
            }),
    {
        match self {
            TypedCol::String(array) => {
                push_text(array, s);
            },
            TypedCol::AnyValue(v) => {
                v.push(AnyValue::StringOwned(s.to_owned()));
            },
            _ => {},
        }
        assert(*old(self) is String || *old(self) is AnyValue ==> self@ =~= old(self)@.push(
            Item::Text(s@),
        ));
    }

    /// Appends a shared string to a column of texts or of mixed types, a null where
    /// there is no such string; any other column stays as it is. A text column
    /// refers to the buffer of the shared strings where the text is long.
    pub fn push_shared_string_ref(&mut self, idx: usize, strings: &SharedStrings)
        requires
            old(self).wf(),
            strings.wf(),
        ensures
            final(self).wf(),
            storage(*final(self)) == storage(*old(self)),
            final(self)@ == (if *old(self) is String || *old(self) is AnyValue {
                old(self)@.push(shared_item(idx, strings@))
            } else {
                old(self)@
            }),
            *old(self) matches TypedCol::String(before) ==> (*final(self) matches TypedCol::String(
                after,
            ) && shared_buffers(idx, *strings, before, after)),
    {
        match self {
            TypedCol::String(array) => {
                if idx < strings.len() {
                    push_shared_text(array, strings, idx);
                } else {
                    push_null_text(array);
                }
            },
            TypedCol::AnyValue(v) => {
                match strings.get(idx) {
                    Some(text) => v.push(AnyValue::StringOwned(text)),
                    None => v.push(AnyValue::Null),
                }
            },
            _ => {},
        }
        assert(*old(self) is String || *old(self) is AnyValue ==> self@ =~= old(self)@.push(
            shared_item(idx, strings@),
        ));
    }

    /// Makes the column take another type: integers become floating-point numbers,
    /// and integers, floating-point numbers, booleans and dates become texts; in
    /// any other case the column is stored as one of mixed types.
    pub fn upgrade(&mut self, target: &DataType)
        requires
            old(self).wf(),
        ensures
            final(self).wf(),
            storage(*final(self)) == upgraded_storage(storage(*old(self)), *target),
            final(self)@ == upgraded_items(storage(*old(self)), old(self)@, *target),
    {
        let mut old_col = TypedCol::Empty;
        core::mem::swap(&mut old_col, self);
        *self = match old_col {
            TypedCol::Int64(v, b) => match target {
                DataType::Float64 => {
                    let floats = ints_to_floats(&v);
                    assert(float_items(floats@, bits(b)) =~= as_floats(int_items(v@, bits(b))));
                    assert forall|i: int| 0 <= i < floats.len() implies text_fits(
                        float_text(#[trigger] floats[i]),
                    ) by {
                        lemma_double_fits(v[i]);
                    }
                    TypedCol::Float64(floats, b)
                },
                DataType::String => TypedCol::String(ints_to_texts(&v, &b)),
                _ => TypedCol::AnyValue(ints_to_any(&v, &b, false)),
            },
            TypedCol::Float64(v, b) => match target {
                DataType::String => TypedCol::String(floats_to_texts(&v, &b)),
                _ => TypedCol::AnyValue(floats_to_any(v, &b)),
            },
            TypedCol::Bool(v, b) => match target {
                DataType::String => TypedCol::String(bools_to_texts(&v, &b)),
                _ => TypedCol::AnyValue(bools_to_any(&v, &b)),
            },
            TypedCol::DateTime(v, b) => match target {
                DataType::String => TypedCol::String(ints_to_texts(&v, &b)),
                _ => TypedCol::AnyValue(ints_to_any(&v, &b, true)),
            },
            TypedCol::String(array) => TypedCol::AnyValue(texts_to_any(array)),
            TypedCol::AnyValue(v) => TypedCol::AnyValue(v),
            TypedCol::Empty => {
                let none: Vec<AnyValue> = Vec::new();
                assert(any_items(none@) =~= Seq::<Item>::empty());
                TypedCol::AnyValue(none)
            },
        };
    }

    /// The entries as values of mixed types.
    pub fn into_any_values(self) -> (values: Vec<AnyValue>)
        requires
            self.wf(),
        ensures
            any_items(values@) == self@,
    {
        match self {
            TypedCol::Int64(v, b) => ints_to_any(&v, &b, false),
            TypedCol::Float64(v, b) => floats_to_any(v, &b),
            TypedCol::Bool(v, b) => bools_to_any(&v, &b),
            TypedCol::String(array) => texts_to_any(array),
            TypedCol::DateTime(v, b) => ints_to_any(&v, &b, true),
            TypedCol::AnyValue(v) => v,
            TypedCol::Empty => {
                let none: Vec<AnyValue> = Vec::new();
                assert(any_items(none@) =~= Seq::<Item>::empty());
                none
            },
        }
    }
}

/// A shared string as an entry of a column, null where there is no such string.
pub open spec fn shared_item(idx: usize, strings: Seq<Seq<char>>) -> Item {
    if idx < strings.len() {
        Item::Text(strings[idx as int])
    } else {
        Item::Null
    }
}

/// What appending a shared string does to the buffers of a text column: a text of
/// up to twelve bytes needs none, a longer one refers to the buffer of the shared
/// strings.
pub open spec fn shared_buffers(
    idx: usize,
    strings: SharedStrings,
    before: TextArray,
    after: TextArray,
) -> bool {
    idx < strings@.len() ==> {
        &&& encode_utf8(strings@[idx as int]).len() <= 12 ==> whole_buffers(after)
            == whole_buffers(before) && buffered_bytes(after) == buffered_bytes(before)
        &&& encode_utf8(strings@[idx as int]).len() > 12 && whole_buffers(before) == 0
            && buffered_bytes(before) == 0 ==> whole_buffers(after) == 1 && buffered_bytes(after) == strings.size()
    }
}

/// A value as a value of mixed types.
pub fn any_value(data: Data) -> (value: AnyValue)
    ensures
        value@ == data_item(data),
{
    match data {
        Data::Int(n) => AnyValue::Int64(n),
        Data::Float(x) => AnyValue::Float64(x),
        Data::Bool(b) => AnyValue::Boolean(b),
        Data::String(s) => AnyValue::StringOwned(s),
        Data::DateTime(date) => AnyValue::Datetime(date.to_timestamp_nanos()),
        Data::DateTimeIso(s) => AnyValue::StringOwned(s),
        Data::DurationIso(s) => AnyValue::StringOwned(s),
        Data::SharedStringRef(index) => {
            let mut text = String::new();
            push_decimal(&mut text, index as u64);
            assert(text@ =~= decimal_digits(index as nat));
            AnyValue::StringOwned(text)
        },
        Data::Error(_) => AnyValue::Null,
        Data::Empty => AnyValue::Null,
    }
}

/// Filling a column up to a length brings it to that length, keeps what it holds and
/// adds nulls only; doing it again changes nothing.
pub proof fn law_padding_once_is_enough(items: Seq<Item>, length: int)
    requires
        0 <= length,
    ensures
        ({
            let once = items + nulls(length - items.len());
            &&& once.len() == (if items.len() > length {
                items.len() as int
            } else {
                length
            })
            &&& once.take(items.len() as int) == items
            &&& forall|i: int| items.len() <= i < once.len() ==> #[trigger] once[i] is Null
            &&& once + nulls(length - once.len()) == once
        }),
{
    let once = items + nulls(length - items.len());
    assert(once.take(items.len() as int) =~= items);
    assert(once + nulls(length - once.len()) =~= once);
}

/// Making a column take another type keeps its length, and an entry is null after
/// it exactly where it was null before.
pub proof fn law_upgrade_keeps_nulls(s: Storage, items: Seq<Item>, target: DataType)
    ensures
        upgraded_items(s, items, target).len() == items.len(),
        forall|i: int|
            0 <= i < items.len() ==> ((#[trigger] upgraded_items(s, items, target)[i]) is Null
                <==> items[i] is Null),
{
}

/// The text of an entry shows it: an integer and a timestamp read back as they are, a
/// boolean is `true` or `false`, and a text is itself.
pub proof fn law_texts_show_entries(n: i64, text: Seq<char>)
    ensures
        signed_value(encode_utf8(item_text(Item::Int(n)))) == Some(n as int),
        signed_value(encode_utf8(item_text(Item::Datetime(n)))) == Some(n as int),
        item_text(Item::Bool(true)) == "true"@,
        item_text(Item::Bool(false)) == "false"@,
        item_text(Item::Text(text)) == text,
        -0x20_0000_0000_0000 < n < 0x20_0000_0000_0000 ==> signed_value(
            encode_utf8(item_text(Item::Float(Float::OfInt(n)))),
        ) == Some(n as int),
{
    law_decimal_reads_back(n as int);
    if -0x20_0000_0000_0000 < n < 0x20_0000_0000_0000 {
        law_small_integer_is_exact(n);
    }
}

/// The text of a value and its entry agree: a value that is not missing shows the same
/// text in a column of texts as on its own, but for a date, which shows its serial on its
/// own; a missing value has no entry.
pub proof fn law_values_show_their_texts(data: Data)
    ensures
        data is Empty || data is Error <==> data_item(data) is Null,
        !(data is Empty || data is Error || data is DateTime) ==> item_text(data_item(data))
            == data_text(data),
        data is Empty ==> data_text(data).len() == 0,
        data matches Data::Error(e) ==> data_text(data) == error_code(e),
        data matches Data::String(s) ==> data_text(data) == s@,
        data matches Data::DateTimeIso(s) ==> data_text(data) == s@,
        data matches Data::DurationIso(s) ==> data_text(data) == s@,
        data matches Data::Int(n) ==> signed_value(encode_utf8(data_text(data))) == Some(n as int)
            && data_item(data) == Item::Int(n),
        data matches Data::Bool(b) ==> data_text(data) == (if b {
            "true"@
        } else {
            "false"@
        }) && data_item(data) == Item::Bool(b),
        data matches Data::Float(x) ==> data_item(data) == Item::Float(x),
        data matches Data::String(s) ==> data_item(data) == Item::Text(s@),
        data matches Data::DateTime(date) ==> data_text(data) == float_text(date.number())
            && (data_item(data) matches Item::Datetime(n) && n == timestamp_nanos(
            float_serial(date.number()),
            date.from_1904(),
        )),
        data matches Data::SharedStringRef(i) ==> unsigned_value(
            encode_utf8(data_text(data)),
            usize::MAX as int,
        ) == Some(i as int),
{
    if let Data::Int(n) = data {
        law_decimal_reads_back(n as int);
    }
    if let Data::SharedStringRef(i) = data {
        law_decimal_reads_back(i as int);
    }
}

/// Making a column take another type keeps what its entries show. Numbers that are to be
/// floating-point numbers become so and nothing else does; entries that are to be texts
/// become the texts of what they were; and where neither is asked for, they stay.
pub proof fn law_upgrade_shows_entries(s: Storage, items: Seq<Item>, target: DataType)
    requires
        !(s is Empty),
    ensures
        forall|i: int|
            #![trigger upgraded_items(s, items, target)[i]]
            0 <= i < items.len() ==> {
                let after = upgraded_items(s, items, target)[i];
                &&& items[i] is Null ==> after is Null
                &&& s is Int64 && target is Float64 && items[i] is Int ==> (after matches Item::Float(
                    Float::OfInt(n),
                ) && items[i] == Item::Int(n))
                &&& (s is Int64 || s is Float64 || s is Bool || s is DateTime) && target is String
                    && !(items[i] is Null) ==> after == Item::Text(item_text(items[i]))
                &&& s is String || s is AnyValue ==> after == items[i]
                &&& target is Int64 || target is Boolean || target is Datetime || target is Null
                    ==> after == items[i]
                &&& s is Float64 || s is Bool || s is DateTime ==> target is String || after
                    == items[i]
            },
{
}

} // verus!
