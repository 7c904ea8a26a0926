//! Columns as they are handed to a data frame.

use crate::arrow::{bits, text_series};
use crate::error::{error, failure, ErrorKind, Failure, XlsxError};
use crate::float::Float;
use crate::typed_col::{
    any_items, bool_items, datetime_items, float_items, int_items, storage, AnyValue, DataType,
    Item, Storage, TypedCol,
};
use polars::prelude::{
    BooleanChunked, Int64Chunked, IntoSeries, Series, TimeUnit,
};
use polars_arrow::array::BooleanArray;
use polars_arrow::bitmap::{Bitmap, MutableBitmap};
use vstd::prelude::*;

verus! {

/// A series, of `polars`.
#[verifier::external_type_specification]
#[verifier::external_body]
pub struct ExSeries(Series);

/// The error of `polars`, which the arithmetic operators of a series return: without
/// it a series cannot be declared.
#[verifier::external_type_specification]
#[verifier::external_body]
pub struct ExPolarsError(polars::prelude::PolarsError);

/// The entries of a series.
pub uninterp spec fn series_items(series: Series) -> Seq<Item>;

/// The name of a series.
pub uninterp spec fn series_name(series: Series) -> Seq<char>;

/// The type of a series.
pub uninterp spec fn series_type(series: Series) -> DataType;

/// `Int64Chunked::from_vec_validity`: a series of integers, null where the bit is
/// not set. With `u32::MAX` entries or more it would panic.
#[verifier::external_body]
pub(crate) fn int_series(name: &str, values: Vec<i64>, valid: MutableBitmap) -> (series: Series)
    requires
        values.len() == bits(valid).len(),
        values.len() < u32::MAX,
    ensures
        series_items(series) == int_items(values@, bits(valid)),
        series_name(series) == name@,
        series_type(series) == DataType::Int64,
{
    Int64Chunked::from_vec_validity(name.into(), values, Some(valid.into())).into_series()
}

/// `Int64Chunked::into_datetime` on a series of integers: a series of dates in
/// nanoseconds without a time zone. With `u32::MAX` entries or more it would panic.
#[verifier::external_body]
pub(crate) fn datetime_series(name: &str, values: Vec<i64>, valid: MutableBitmap) -> (series:
    Series)
    requires
        values.len() == bits(valid).len(),
        values.len() < u32::MAX,
    ensures
        series_items(series) == datetime_items(values@, bits(valid)),
        series_name(series) == name@,
        series_type(series) == DataType::Datetime,
{
    Int64Chunked::from_vec_validity(name.into(), values, Some(valid.into()))
        .into_datetime(TimeUnit::Nanoseconds, None)
        .into_series()
}

/// `BooleanArray::new` and `BooleanChunked::with_chunk`: a series of booleans, null
/// where the bit is not set. With `u32::MAX` entries or more it would panic.
#[verifier::external_body]
pub(crate) fn bool_series(name: &str, values: Vec<bool>, valid: MutableBitmap) -> (series: Series)
    requires
        values.len() == bits(valid).len(),
        values.len() < u32::MAX,
    ensures
        series_items(series) == bool_items(values@, bits(valid)),
        series_name(series) == name@,
        series_type(series) == DataType::Boolean,
{
    let dtype = polars_arrow::datatypes::ArrowDataType::Boolean;
    let array = BooleanArray::new(dtype, Bitmap::from_iter(values), Some(valid.into()));
    BooleanChunked::with_chunk(name.into(), array).into_series()
}

/// A column as it is handed to a data frame: a finished series, floating-point
/// numbers under a bitmap, or values of mixed types that are to become a series of
/// a type.
pub enum ColumnSeries {
    Ready(Series),
    Float64 { name: String, values: Vec<Float>, valid: MutableBitmap },
    Mixed { name: String, values: Vec<AnyValue>, dtype: DataType },
}

/// The entries of a column.
pub open spec fn column_items(column: ColumnSeries) -> Seq<Item> {
    match column {
        ColumnSeries::Ready(series) => series_items(series),
        ColumnSeries::Float64 { name: _, values, valid } => float_items(values@, bits(valid)),
        ColumnSeries::Mixed { name: _, values, dtype: _ } => any_items(values@),
    }
}

/// The name of a column.
pub open spec fn column_name(column: ColumnSeries) -> Seq<char> {
    match column {
        ColumnSeries::Ready(series) => series_name(series),
        ColumnSeries::Float64 { name, values: _, valid: _ } => name@,
        ColumnSeries::Mixed { name, values: _, dtype: _ } => name@,
    }
}

/// The type of a column.
pub open spec fn column_type(column: ColumnSeries) -> DataType {
    match column {
        ColumnSeries::Ready(series) => series_type(series),
        ColumnSeries::Float64 { name: _, values: _, valid: _ } => DataType::Float64,
        ColumnSeries::Mixed { name: _, values: _, dtype } => dtype,
    }
}

/// Whether a column is stored as values of a type are, so that it becomes a series
/// of the type without going through mixed values.
pub open spec fn stored_as(s: Storage, dtype: DataType) -> bool {
    match dtype {
        DataType::Int64 => s is Int64,
        DataType::Float64 => s is Float64,
        DataType::Boolean => s is Bool,
        DataType::String => s is String,
        DataType::Datetime => s is DateTime,
        DataType::Null => false,
    }
}

/// Whether a column is short enough for a series.
pub open spec fn series_fits(length: int) -> bool {
    length < u32::MAX
}

/// The refusal of a column that is too long for a series.
pub open spec fn column_too_long() -> Failure {
    failure(ErrorKind::TooLong, "Column has too many rows"@)
}

impl TypedCol {
    /// The column as a series of a type. A column that is stored otherwise goes
    /// through values of mixed types. A column is refused exactly where it is too long
    /// for a series.
    pub fn into_series(self, name: &str, dtype: &DataType) -> (made: Result<
        ColumnSeries,
        XlsxError,
    >)
        requires
            self.wf(),
        ensures
            match made {
                Ok(column) => series_fits(self@.len() as int) && column_items(column) == self@
                    && column_name(column) == name@ && column_type(column) == *dtype
                    && (column is Mixed <==> !stored_as(storage(self), *dtype))
                    && (column is Float64 ==> *dtype == DataType::Float64),
                Err(e) => !series_fits(self@.len() as int) && e@ == column_too_long(),
            },
    {
        if self.len() as u64 >= u32::MAX as u64 {
            return Err(error(ErrorKind::TooLong, "Column has too many rows"));
        }
        Ok(match (self, dtype) {
            (TypedCol::Int64(v, b), DataType::Int64) => ColumnSeries::Ready(
                int_series(name, v, b),
            ),
            (TypedCol::Float64(v, b), DataType::Float64) => ColumnSeries::Float64 {
                name: name.to_owned(),
                values: v,
                valid: b,
            },
            (TypedCol::Bool(v, b), DataType::Boolean) => ColumnSeries::Ready(
                bool_series(name, v, b),
            ),
            (TypedCol::String(array), DataType::String) => ColumnSeries::Ready(
                text_series(name, array),
            ),
            (TypedCol::DateTime(v, b), DataType::Datetime) => ColumnSeries::Ready(
                datetime_series(name, v, b),
            ),
            (col, _) => ColumnSeries::Mixed {
                name: name.to_owned(),
                values: col.into_any_values(),
                dtype: *dtype,
            },
        })
    }
}

} // verus!
