//! The columns of a batch.

use crate::arrow::SharedStrings;
use crate::error::{error, failure, ErrorKind, XlsxError};
use crate::excel_types::{is_null_data, Cell, Data, Dimensions};
use crate::float::Float;
use crate::series::{
    column_items, column_name, column_too_long, column_type, series_fits, stored_as, ColumnSeries,
};
use crate::typed_col::{
    data_fits, data_item, item_text, nulls, pushed, shared_item, storage, stored_item, takes,
    upgraded_items, upgraded_storage, value_fits, DataType, Item, Storage, TypedCol,
};
use std::sync::Arc;
use vstd::prelude::*;

verus! {

/// The columns that a batch is collected in, their names and the types inferred so
/// far. The types outlive the batch.
#[derive(Debug)]
pub struct TypedCols {
    pub cols: Vec<TypedCol>,
    pub batch_size: usize,
    pub headers: Vec<String>,
    pub col_dtypes: Vec<Option<DataType>>,
    pub strings: Option<Arc<SharedStrings>>,
}

/// A column, as contracts speak of it.
pub struct ColState {
    pub storage: Storage,
    pub items: Seq<Item>,
}

/// The columns of a batch, as contracts speak of them.
pub struct ColsState {
    pub cols: Seq<ColState>,
    pub dtypes: Seq<Option<DataType>>,
}

/// A column without storage.
pub open spec fn empty_col() -> ColState {
    ColState { storage: Storage::Empty, items: Seq::empty() }
}

/// Columns as contracts speak of them.
pub open spec fn col_states(cols: Seq<TypedCol>) -> Seq<ColState> {
    cols.map_values(|col: TypedCol| ColState { storage: storage(col), items: col@ })
}

/// The type of a value; that of a missing value says nothing.
pub open spec fn data_dtype(data: Data) -> DataType {
    match data {
        Data::Int(_) => DataType::Int64,
        Data::Float(_) => DataType::Float64,
        Data::Bool(_) => DataType::Boolean,
        Data::String(_) => DataType::String,
        Data::SharedStringRef(_) => DataType::String,
        Data::DateTimeIso(_) => DataType::String,
        Data::DurationIso(_) => DataType::String,
        Data::DateTime(_) => DataType::Datetime,
        Data::Error(_) => DataType::Null,
        Data::Empty => DataType::Null,
    }
}

/// The type of a value.
pub fn data_to_dtype(data: &Data) -> (dtype: DataType)
    ensures
        dtype == data_dtype(*data),
{
    match data {
        Data::Int(_) => DataType::Int64,
        Data::Float(_) => DataType::Float64,
        Data::Bool(_) => DataType::Boolean,
        Data::String(_) => DataType::String,
        Data::SharedStringRef(_) => DataType::String,
        Data::DateTimeIso(_) => DataType::String,
        Data::DurationIso(_) => DataType::String,
        Data::DateTime(_) => DataType::Datetime,
        Data::Error(_) => DataType::Null,
        Data::Empty => DataType::Null,
    }
}

/// The type that two types have in common: integers and floating-point numbers are
/// floating-point numbers, any other two types are texts.
pub open spec fn common_type(a: DataType, b: DataType) -> DataType {
    if a == b {
        a
    } else if (a == DataType::Int64 && b == DataType::Float64) || (a == DataType::Float64 && b
        == DataType::Int64) {
        DataType::Float64
    } else {
        DataType::String
    }
}

/// The type of a column after one more value. Missing values leave it as it is.
pub open spec fn inferred(current: Option<DataType>, data: Data) -> Option<DataType> {
    if is_null_data(data) {
        current
    } else {
        match current {
            None => Some(data_dtype(data)),
            Some(dtype) => Some(common_type(dtype, data_dtype(data))),
        }
    }
}

/// The type of a column of values.
pub open spec fn inferred_all(values: Seq<Data>) -> Option<DataType>
    decreases values.len(),
{
    if values.len() == 0 {
        None
    } else {
        inferred(inferred_all(values.drop_last()), values.last())
    }
}

/// How a column of a type is stored.
pub open spec fn storage_of(dtype: Option<DataType>) -> Storage {
    match dtype {
        Some(DataType::Int64) => Storage::Int64,
        Some(DataType::Float64) => Storage::Float64,
        Some(DataType::Boolean) => Storage::Bool,
        Some(DataType::String) => Storage::String,
        Some(DataType::Datetime) => Storage::DateTime,
        _ => Storage::AnyValue,
    }
}

/// A column after one more value, in row `row` of the batch. `dtype` is the type of
/// the column with the value counted in. Rows that the column lacks are filled with
/// nulls; a value that the storage cannot take makes it change; and a value that it
/// has no place for even then is dropped.
pub open spec fn col_after(
    col: ColState,
    dtype: Option<DataType>,
    data: Data,
    row: int,
    strings: Option<Seq<Seq<char>>>,
) -> ColState {
    let fresh = if col.storage is Empty {
        storage_of(dtype)
    } else {
        col.storage
    };
    let filled = col.items + nulls(row - col.items.len());
    if is_null_data(data) {
        ColState { storage: fresh, items: filled.push(Item::Null) }
    } else {
        let target = match dtype {
            Some(d) => d,
            None => DataType::String,
        };
        let (after, items) = if takes(fresh, data) {
            (fresh, filled)
        } else {
            (upgraded_storage(fresh, target), upgraded_items(fresh, filled, target))
        };
        match data {
            Data::SharedStringRef(index) => ColState {
                storage: after,
                items: match strings {
                    Some(texts) => if after is String || after is AnyValue {
                        items.push(shared_item(index, texts))
                    } else {
                        items
                    },
                    None => items.push(Item::Null),
                },
            },
            _ => ColState { storage: after, items: pushed(items, stored_item(after, data)) },
        }
    }
}

/// Columns and types with room for column `col`.
pub open spec fn with_col(state: ColsState, col: int) -> ColsState {
    if col < state.cols.len() {
        state
    } else {
        let more = (col + 1 - state.cols.len()) as nat;
        ColsState {
            cols: state.cols + Seq::new(more, |i: int| empty_col()),
            dtypes: state.dtypes + Seq::new(more, |i: int| None::<DataType>),
        }
    }
}

/// The columns after one more cell, in column `col` and row `row` of the batch.
pub open spec fn cols_after(
    state: ColsState,
    col: int,
    data: Data,
    row: int,
    strings: Option<Seq<Seq<char>>>,
) -> ColsState {
    let wide = with_col(state, col);
    let dtype = inferred(wide.dtypes[col], data);
    ColsState {
        cols: wide.cols.update(col, col_after(wide.cols[col], dtype, data, row, strings)),
        dtypes: wide.dtypes.update(col, dtype),
    }
}

/// The name of a column, `unknown` where it has none.
pub open spec fn header_of(headers: Seq<Seq<char>>, i: int) -> Seq<char> {
    if 0 <= i < headers.len() {
        headers[i]
    } else {
        "unknown"@
    }
}

/// The type of a column, `Null` where none was inferred.
pub open spec fn dtype_of(dtypes: Seq<Option<DataType>>, i: int) -> DataType {
    if 0 <= i < dtypes.len() {
        match dtypes[i] {
            Some(d) => d,
            None => DataType::Null,
        }
    } else {
        DataType::Null
    }
}

/// The length of the longest column.
pub open spec fn longest(cols: Seq<ColState>) -> int
    decreases cols.len(),
{
    if cols.len() == 0 {
        0
    } else {
        let rest = longest(cols.drop_last());
        if cols.last().items.len() > rest {
            cols.last().items.len() as int
        } else {
            rest
        }
    }
}

/// The entries of a column in a frame of some height: filled up with nulls.
pub open spec fn padded(col: ColState, height: int) -> Seq<Item> {
    col.items + nulls(height - col.items.len())
}

/// Whether a frame's columns are the columns of a batch, filled up to the longest.
pub open spec fn is_frame(
    frame: Seq<ColumnSeries>,
    state: ColsState,
    headers: Seq<Seq<char>>,
) -> bool {
    &&& frame.len() == state.cols.len()
    &&& forall|i: int|
        #![trigger frame[i]]
        0 <= i < frame.len() ==> {
            &&& column_items(frame[i]) == padded(state.cols[i], longest(state.cols))
            &&& column_name(frame[i]) == header_of(headers, i)
            &&& column_type(frame[i]) == dtype_of(state.dtypes, i)
            &&& (frame[i] is Mixed <==> !stored_as(
                state.cols[i].storage,
                dtype_of(state.dtypes, i),
            ))
        }
}

/// Names as contracts speak of them.
pub open spec fn header_texts(headers: Seq<String>) -> Seq<Seq<char>> {
    headers.map_values(|h: String| h@)
}

/// Optional shared strings as contracts speak of them.
pub open spec fn strings_texts(strings: Option<Arc<SharedStrings>>) -> Option<Seq<Seq<char>>> {
    match strings {
        Some(s) => Some(s@),
        None => None,
    }
}

impl TypedCols {
    /// Whether every column is in good order and has a type of its own.
    pub open spec fn wf(&self) -> bool {
        &&& forall|i: int| 0 <= i < self.cols.len() ==> (#[trigger] self.cols[i]).wf()
        &&& self.cols.len() <= self.col_dtypes.len()
        &&& self.strings matches Some(s) ==> s.wf()
    }

    /// The columns and their types.
    pub open spec fn state(&self) -> ColsState {
        ColsState { cols: col_states(self.cols@), dtypes: self.col_dtypes@ }
    }

    /// The shared strings.
    pub open spec fn texts(&self) -> Option<Seq<Seq<char>>> {
        strings_texts(self.strings)
    }

    /// Columns for a sheet of some used range, all of them empty.
    pub fn new(dimension: &Dimensions, batch_size: usize) -> (cols: Self)
        requires
            dimension.end.1 < usize::MAX,
        ensures
            cols.wf(),
            cols.batch_size == batch_size,
            cols.headers.len() == 0,
            cols.strings is None,
            cols.cols.len() == dimension.end.1 + 1,
            cols.state().cols == Seq::new((dimension.end.1 + 1) as nat, |i: int| empty_col()),
            cols.state().dtypes == Seq::new(
                (dimension.end.1 + 1) as nat,
                |i: int| None::<DataType>,
            ),
    {
        let col_num: usize = dimension.end.1 as usize + 1;
        let mut cols: Vec<TypedCol> = Vec::new();
        let mut col_dtypes: Vec<Option<DataType>> = Vec::new();
        let mut i: usize = 0;
        while i < col_num
            invariant
                i <= col_num,
                cols.len() == i,
                col_dtypes.len() == i,
                forall|k: int| 0 <= k < i ==> cols@[k] == TypedCol::Empty,
                forall|k: int| 0 <= k < i ==> col_dtypes@[k] is None,
            decreases col_num - i,
        {
            cols.push(TypedCol::Empty);
            col_dtypes.push(None);
            i += 1;
        }
        let made = TypedCols {
            cols,
            batch_size,
            headers: Vec::new(),
            col_dtypes,
            strings: None,
        };
        assert(made.state().cols =~= Seq::new(
            (dimension.end.1 + 1) as nat,
            |k: int| empty_col(),
        ));
        assert(made.state().dtypes =~= Seq::new(
            (dimension.end.1 + 1) as nat,
            |k: int| None::<DataType>,
        ));
        made
    }

    fn make_room(&mut self, col: usize)
        requires
            old(self).wf(),
            col < usize::MAX,
        ensures
            final(self).wf(),
            final(self).batch_size == old(self).batch_size,
            final(self).headers == old(self).headers,
            final(self).strings == old(self).strings,
            final(self).state() == with_col(old(self).state(), col as int),
            col < final(self).cols.len(),
            col < final(self).col_dtypes.len(),
    {
        let start: usize = self.cols.len();
        while self.cols.len() <= col
            invariant
                self.wf(),
                start == old(self).cols.len(),
                start <= self.cols.len(),
                self.cols.len() <= col + 1 || self.cols.len() == start,
                col < usize::MAX,
                self.col_dtypes.len() - old(self).col_dtypes.len() == self.cols.len() - start,
                self.batch_size == old(self).batch_size,
                self.headers == old(self).headers,
                self.strings == old(self).strings,
                forall|i: int| 0 <= i < start ==> self.cols@[i] == old(self).cols@[i],
                forall|i: int| start <= i < self.cols.len() ==> self.cols@[i] == TypedCol::Empty,
                forall|i: int|
                    0 <= i < old(self).col_dtypes.len() ==> self.col_dtypes@[i] == old(self).col_dtypes@[i],
                forall|i: int|
                    old(self).col_dtypes.len() <= i < self.col_dtypes.len()
                        ==> self.col_dtypes@[i] is None,
            decreases col + 1 - self.cols.len(),
        {
            self.cols.push(TypedCol::Empty);
            self.col_dtypes.push(None);
        }
        proof {
            let wide = with_col(old(self).state(), col as int);
            assert(self.state().cols =~= wide.cols);
            assert(self.state().dtypes =~= wide.dtypes);
        }
    }

    /// Takes a value into account in the type of a column.
    pub fn infer_dtype(&mut self, col_idx: usize, data: &Data)
        requires
            col_idx < old(self).col_dtypes.len(),
        ensures
            final(self).cols == old(self).cols,
            final(self).batch_size == old(self).batch_size,
            final(self).headers == old(self).headers,
            final(self).strings == old(self).strings,
            final(self).col_dtypes@ == old(self).col_dtypes@.update(
                col_idx as int,
                inferred(old(self).col_dtypes@[col_idx as int], *data),
            ),
    {
        if data.is_null() {
            assert(self.col_dtypes@ =~= old(self).col_dtypes@.update(
                col_idx as int,
                old(self).col_dtypes@[col_idx as int],
            ));
            return;
        }
        let new_dtype = data_to_dtype(data);
        let joined = match self.col_dtypes[col_idx] {
            None => new_dtype,
            Some(dtype) => {
                if dtype == new_dtype {
                    dtype
                } else if (dtype == DataType::Int64 && new_dtype == DataType::Float64) || (dtype
                    == DataType::Float64 && new_dtype == DataType::Int64) {
                    DataType::Float64
                } else {
                    DataType::String
                }
            },
        };
        self.col_dtypes.set(col_idx, Some(joined));
    }

    /// Takes a cell, in row `batch_row` of the batch. It is refused exactly where
    /// its text is too long for a text column.
    pub fn push_cell(&mut self, cell: Cell<Data>, batch_row: usize) -> (taken: Result<
        (),
        XlsxError,
    >)
        requires
            old(self).wf(),
            cell.position().1 < usize::MAX,
        ensures
            final(self).wf(),
            final(self).batch_size == old(self).batch_size,
            final(self).headers == old(self).headers,
            final(self).strings == old(self).strings,
            match taken {
                Ok(_) => data_fits(cell.value()) && final(self).state() == cols_after(
                    old(self).state(),
                    cell.position().1 as int,
                    cell.value(),
                    batch_row as int,
                    old(self).texts(),
                ),
                Err(e) => !data_fits(cell.value()) && e@ == failure(
                    ErrorKind::TooLong,
                    "Text exceeds 4 GiB"@,
                ) && final(self).state() == old(self).state(),
            },
    {
        let col: usize = cell.get_position().1 as usize;
        let data = cell.into_value();
        if !value_fits(&data) {
            return Err(error(ErrorKind::TooLong, "Text exceeds 4 GiB"));
        }
        self.make_room(col);
        let ghost wide = self.state();
        self.infer_dtype(col, &data);
        let dtype = self.col_dtypes[col];
        let mut taken = TypedCol::Empty;
        core::mem::swap(&mut taken, &mut self.cols[col]);
        let ghost before = ColState { storage: storage(taken), items: taken@ };
        assert(before == wide.cols[col as int]);
        let after = place_value(taken, dtype, data, batch_row, self.batch_size, &self.strings);
        self.cols.set(col, after);
        proof {
            let wanted = cols_after(
                old(self).state(),
                col as int,
                data,
                batch_row as int,
                old(self).texts(),
            );
            assert(self.state().cols =~= wanted.cols);
            assert(self.state().dtypes =~= wanted.dtypes);
        }
        Ok(())
    }

    /// Hands out the columns of the batch, filled up with nulls to the longest, and
    /// leaves none behind. Names and types stay. They are refused exactly where the
    /// longest is too long for a series.
    pub fn into_dataframe(&mut self) -> (made: Result<Vec<ColumnSeries>, XlsxError>)
        requires
            old(self).wf(),
        ensures
            final(self).wf(),
            final(self).batch_size == old(self).batch_size,
            final(self).headers == old(self).headers,
            final(self).strings == old(self).strings,
            final(self).col_dtypes == old(self).col_dtypes,
            final(self).state().cols.len() == 0,
            match made {
                Ok(frame) => series_fits(longest(old(self).state().cols)) && is_frame(
                    frame@,
                    old(self).state(),
                    header_texts(old(self).headers@),
                ),
                Err(e) => !series_fits(longest(old(self).state().cols)) && e@
                    == column_too_long(),
            },
    {
        let ghost state = self.state();
        let max_len: usize = self.max_len();
        let mut cols: Vec<TypedCol> = Vec::new();
        core::mem::swap(&mut cols, &mut self.cols);
        let ghost given = cols@;
        if max_len as u64 >= u32::MAX as u64 {
            return Err(error(ErrorKind::TooLong, "Column has too many rows"));
        }
        proof {
            lemma_longest(state.cols);
            assert forall|k: int| 0 <= k < given.len() implies (#[trigger] given[k])@.len()
                <= max_len by {
                assert(state.cols[k].items == given[k]@);
            }
        }
        let mut frame: Vec<ColumnSeries> = Vec::new();
        let mut i: usize = 0;
        let ghost headers = header_texts(self.headers@);
        while i < cols.len()
            invariant
                i <= cols.len(),
                cols.len() == given.len(),
                self.cols.len() == 0,
                self.batch_size == old(self).batch_size,
                self.headers == old(self).headers,
                self.strings == old(self).strings,
                self.col_dtypes == old(self).col_dtypes,
                state == old(self).state(),
                given == old(self).cols@,
                max_len == longest(state.cols),
                series_fits(max_len as int),
                forall|k: int|
                    0 <= k < given.len() ==> (#[trigger] given[k])@.len() <= max_len,
                headers == header_texts(self.headers@),
                forall|k: int| i <= k < cols.len() ==> cols@[k] == given[k],
                forall|k: int| 0 <= k < given.len() ==> (#[trigger] given[k]).wf(),
                frame.len() == i,
                forall|k: int|
                    #![trigger frame@[k]]
                    0 <= k < i ==> {
                        &&& column_items(frame@[k]) == padded(
                            state.cols[k],
                            longest(state.cols),
                        )
                        &&& column_name(frame@[k]) == header_of(headers, k)
                        &&& column_type(frame@[k]) == dtype_of(state.dtypes, k)
                        &&& (frame@[k] is Mixed <==> !stored_as(
                            state.cols[k].storage,
                            dtype_of(state.dtypes, k),
                        ))
                    },
            decreases cols.len() - i,
        {
            let mut col = TypedCol::Empty;
            core::mem::swap(&mut col, &mut cols[i]);
            assert(col == given[i as int]);
            assert(col.wf());
            col.pad_to(max_len);
            let dtype = if i < self.col_dtypes.len() {
                match self.col_dtypes[i] {
                    Some(dtype) => dtype,
                    None => DataType::Null,
                }
            } else {
                DataType::Null
            };
            let name = if i < self.headers.len() {
                self.headers[i].as_str()
            } else {
                "unknown"
            };
            match col.into_series(name, &dtype) {
                Ok(column) => {
                    frame.push(column);
                },
                Err(e) => {
                    return Err(e);
                },
            }
            i += 1;
        }
        Ok(frame)
    }

    fn max_len(&self) -> (max: usize)
        ensures
            max == longest(self.state().cols),
    {
        let mut max: usize = 0;
        let mut i: usize = 0;
        let ghost states = self.state().cols;
        while i < self.cols.len()
            invariant
                i <= self.cols.len(),
                states == self.state().cols,
                states.len() == self.cols.len(),
                max == longest(states.take(i as int)),
            decreases self.cols.len() - i,
        {
            let len: usize = self.cols[i].len();
            if len > max {
                max = len;
            }
            i += 1;
            assert(states.take(i as int).drop_last() =~= states.take(i - 1));
        }
        assert(states.take(i as int) =~= states);
        max
    }

    /// Whether some column has an entry.
    pub fn has_data(&self) -> (some: bool)
        ensures
            some == (exists|i: int|
                0 <= i < self.state().cols.len() && (#[trigger] self.state().cols[i]).items.len()
                    > 0),
    {
        let mut i: usize = 0;
        while i < self.cols.len()
            invariant
                i <= self.cols.len(),
                forall|k: int|
                    0 <= k < i ==> (#[trigger] self.state().cols[k]).items.len() == 0,
            decreases self.cols.len() - i,
        {
            if !self.cols[i].is_empty() {
                assert(self.state().cols[i as int].items.len() > 0);
                return true;
            }
            i += 1;
        }
        false
    }
}

/// A column after one more value.
fn place_value(
    col: TypedCol,
    dtype: Option<DataType>,
    data: Data,
    batch_row: usize,
    batch_size: usize,
    strings: &Option<Arc<SharedStrings>>,
) -> (after: TypedCol)
    requires
        col.wf(),
        data_fits(data),
        *strings matches Some(s) ==> s.wf(),
    ensures
        after.wf(),
        (ColState { storage: storage(after), items: after@ }) == col_after(
            (ColState { storage: storage(col), items: col@ }),
            dtype,
            data,
            batch_row as int,
            strings_texts(*strings),
        ),
{
    let mut col = col;
    let ghost given = col@;
    let is_null = data.is_null();
    let fresh = match col {
        TypedCol::Empty => true,
        _ => false,
    };
    if fresh {
        col = match dtype {
            Some(d) => TypedCol::new(&d, batch_size),
            None => TypedCol::new(&DataType::Null, batch_size),
        };
    }
    assert(col@ =~= given);
    let current_len: usize = col.len();
    if current_len < batch_row {
        col.pad_to(batch_row);
    }
    assert(col@ =~= given + nulls(batch_row - given.len()));
    if is_null {
        col.push_null();
        return col;
    }
    if !col.accepts(&data) {
        match dtype {
            Some(d) => col.upgrade(&d),
            None => col.upgrade(&DataType::String),
        }
    }
    match data {
        Data::SharedStringRef(index) => {
            match strings {
                Some(table) => {
                    col.push_shared_string_ref(index, &**table);
                },
                None => {
                    col.push_null();
                },
            }
        },
        other => {
            col.push_value(other);
        },
    }
    col
}

/// Whether every value that is not missing is of a type.
pub open spec fn all_of(values: Seq<Data>, dtype: DataType) -> bool {
    forall|i: int|
        0 <= i < values.len() ==> is_null_data(#[trigger] values[i]) || data_dtype(values[i])
            == dtype
}

/// Whether every value that is not missing is a number.
pub open spec fn all_numbers(values: Seq<Data>) -> bool {
    forall|i: int|
        0 <= i < values.len() ==> is_null_data(#[trigger] values[i]) || data_dtype(values[i])
            == DataType::Int64 || data_dtype(values[i]) == DataType::Float64
}

/// Whether every value is missing.
pub open spec fn all_missing(values: Seq<Data>) -> bool {
    forall|i: int| 0 <= i < values.len() ==> is_null_data(#[trigger] values[i])
}

/// The type of a column of values: none where all are missing, their own where they
/// share it, floating-point numbers where all are numbers, else texts.
pub open spec fn type_of_values(values: Seq<Data>) -> Option<DataType> {
    if all_missing(values) {
        None
    } else if all_of(values, DataType::Int64) {
        Some(DataType::Int64)
    } else if all_of(values, DataType::Boolean) {
        Some(DataType::Boolean)
    } else if all_of(values, DataType::Datetime) {
        Some(DataType::Datetime)
    } else if all_numbers(values) {
        Some(DataType::Float64)
    } else {
        Some(DataType::String)
    }
}

/// Inferring the type value by value comes to the type of all values. Missing values
/// have no say in it.
pub proof fn law_inferred_type(values: Seq<Data>)
    ensures
        inferred_all(values) == type_of_values(values),
    decreases values.len(),
{
    if values.len() > 0 {
        let front = values.drop_last();
        let last = values.last();
        law_inferred_type(front);
        assert forall|t: DataType| all_of(values, t) == (all_of(front, t) && (is_null_data(last)
            || data_dtype(last) == t)) by {
            if all_of(front, t) && (is_null_data(last) || data_dtype(last) == t) {
                assert forall|i: int| 0 <= i < values.len() implies is_null_data(
                    #[trigger] values[i],
                ) || data_dtype(values[i]) == t by {
                    if i < front.len() {
                        assert(values[i] == front[i]);
                    }
                }
            }
            if all_of(values, t) {
                assert forall|i: int| 0 <= i < front.len() implies is_null_data(
                    #[trigger] front[i],
                ) || data_dtype(front[i]) == t by {
                    assert(front[i] == values[i]);
                }
                assert(values[values.len() - 1] == last);
            }
        }
        assert(all_missing(values) == (all_missing(front) && is_null_data(last))) by {
            if all_missing(front) && is_null_data(last) {
                assert forall|i: int| 0 <= i < values.len() implies is_null_data(
                    #[trigger] values[i],
                ) by {
                    if i < front.len() {
                        assert(values[i] == front[i]);
                    }
                }
            }
            if all_missing(values) {
                assert forall|i: int| 0 <= i < front.len() implies is_null_data(
                    #[trigger] front[i],
                ) by {
                    assert(front[i] == values[i]);
                }
                assert(values[values.len() - 1] == last);
            }
        }
        assert(all_numbers(values) == (all_numbers(front) && (is_null_data(last) || data_dtype(
            last,
        ) == DataType::Int64 || data_dtype(last) == DataType::Float64))) by {
            if all_numbers(front) && (is_null_data(last) || data_dtype(last) == DataType::Int64
                || data_dtype(last) == DataType::Float64) {
                assert forall|i: int| 0 <= i < values.len() implies is_null_data(
                    #[trigger] values[i],
                ) || data_dtype(values[i]) == DataType::Int64 || data_dtype(values[i])
                    == DataType::Float64 by {
                    if i < front.len() {
                        assert(values[i] == front[i]);
                    }
                }
            }
            if all_numbers(values) {
                assert forall|i: int| 0 <= i < front.len() implies is_null_data(
                    #[trigger] front[i],
                ) || data_dtype(front[i]) == DataType::Int64 || data_dtype(front[i])
                    == DataType::Float64 by {
                    assert(front[i] == values[i]);
                }
                assert(values[values.len() - 1] == last);
            }
        }
        if all_of(front, DataType::Int64) {
            assert(all_numbers(front));
        }
        if !all_missing(front) {
            let i = choose|i: int| 0 <= i < front.len() && !is_null_data(#[trigger] front[i]);
            assert(!is_null_data(front[i]));
        }
    }
}

/// The order of the values has no say in their type.
pub proof fn law_order_has_no_say_in_type(a: Seq<Data>, b: Seq<Data>)
    requires
        a.to_multiset() == b.to_multiset(),
    ensures
        inferred_all(a) == inferred_all(b),
{
    broadcast use vstd::seq_lib::group_to_multiset_ensures;

    law_inferred_type(a);
    law_inferred_type(b);
    assert forall|i: int| 0 <= i < a.len() implies b.contains(#[trigger] a[i]) by {
        assert(a.contains(a[i]));
        assert(a.to_multiset().count(a[i]) > 0);
    }
    assert forall|i: int| 0 <= i < b.len() implies a.contains(#[trigger] b[i]) by {
        assert(b.contains(b[i]));
        assert(b.to_multiset().count(b[i]) > 0);
    }
    lemma_same_types(a, b);
    lemma_same_types(b, a);
}

proof fn lemma_same_types(a: Seq<Data>, b: Seq<Data>)
    requires
        forall|i: int| 0 <= i < a.len() ==> b.contains(#[trigger] a[i]),
    ensures
        all_missing(b) ==> all_missing(a),
        all_numbers(b) ==> all_numbers(a),
        forall|t: DataType| all_of(b, t) ==> #[trigger] all_of(a, t),
{
    assert forall|i: int| 0 <= i < a.len() implies exists|j: int|
        0 <= j < b.len() && b[j] == #[trigger] a[i] by {
        assert(b.contains(a[i]));
    }
}

/// The columns of a frame are all as long as the longest.
pub proof fn law_frame_columns_are_equally_long(cols: Seq<ColState>)
    ensures
        forall|i: int|
            0 <= i < cols.len() ==> padded(#[trigger] cols[i], longest(cols)).len() == longest(
                cols,
            ),
{
    lemma_longest(cols);
}

proof fn lemma_longest(cols: Seq<ColState>)
    ensures
        forall|i: int| 0 <= i < cols.len() ==> (#[trigger] cols[i]).items.len() <= longest(cols),
        0 <= longest(cols),
    decreases cols.len(),
{
    if cols.len() > 0 {
        let front = cols.drop_last();
        lemma_longest(front);
        assert forall|i: int| 0 <= i < cols.len() implies (#[trigger] cols[i]).items.len()
            <= longest(cols) by {
            if i < front.len() {
                assert(cols[i] == front[i]);
            }
        }
    }
}

/// Whether a column of a type can be stored so: as values of the type are, or as
/// values of mixed types, or not at all yet.
pub open spec fn storage_fits(s: Storage, dtype: Option<DataType>) -> bool {
    s is Empty || s is AnyValue || s == storage_of(dtype)
}

/// Whether every column is stored as its type allows.
pub open spec fn cols_fit(state: ColsState) -> bool {
    &&& state.cols.len() <= state.dtypes.len()
    &&& forall|i: int|
        0 <= i < state.cols.len() ==> storage_fits(
            (#[trigger] state.cols[i]).storage,
            state.dtypes[i],
        ) && (state.cols[i].storage is Empty ==> state.cols[i].items.len() == 0)
}

/// The entry of a value: shared strings are looked up, and one that does not exist is
/// missing.
pub open spec fn value_item(data: Data, strings: Option<Seq<Seq<char>>>) -> Item {
    match data {
        Data::SharedStringRef(index) => match strings {
            Some(texts) => shared_item(index, texts),
            None => Item::Null,
        },
        _ => data_item(data),
    }
}

/// Whether an entry of a column shows a value: as it is, an integer as a
/// floating-point number, or its text.
pub open spec fn shows(entry: Item, value: Item) -> bool {
    ||| entry == value
    ||| value matches Item::Int(n) && (entry == Item::Float(Float::OfInt(n)) || entry
        == Item::Text(item_text(Item::Float(Float::OfInt(n)))))
    ||| !(value is Null) && entry == Item::Text(item_text(value))
}

/// No value is lost: a value lands in its row, whatever the column held before. The
/// column ends with it, the rows that the column lacked before are null, and the rows
/// that it had before still show what they showed.
pub proof fn law_value_lands_in_its_row(
    col: ColState,
    current: Option<DataType>,
    data: Data,
    row: int,
    strings: Option<Seq<Seq<char>>>,
)
    requires
        storage_fits(col.storage, current),
        col.storage is Empty ==> col.items.len() == 0,
        col.items.len() <= row,
    ensures
        ({
            let dtype = inferred(current, data);
            let after = col_after(col, dtype, data, row, strings);
            &&& storage_fits(after.storage, dtype)
            &&& !(after.storage is Empty)
            &&& after.items.len() == row + 1
            &&& shows(after.items[row], value_item(data, strings))
            &&& forall|i: int|
                col.items.len() <= i < row ==> (#[trigger] after.items[i]) is Null
            &&& forall|i: int, value: Item|
                0 <= i < col.items.len() && shows(col.items[i], value) ==> #[trigger] shows(
                    after.items[i],
                    value,
                )
        }),
{
}

/// The type of a value is that of what it holds: a whole number, a floating-point number, a
/// boolean, a date, or a text, which a shared string, a date written as text and a duration
/// are too. A missing value has none.
pub proof fn law_types_of_values(data: Data)
    ensures
        data_dtype(data) == DataType::Int64 <==> data is Int,
        data_dtype(data) == DataType::Float64 <==> data is Float,
        data_dtype(data) == DataType::Boolean <==> data is Bool,
        data_dtype(data) == DataType::Datetime <==> data is DateTime,
        data_dtype(data) == DataType::String <==> data is String || data is SharedStringRef
            || data is DateTimeIso || data is DurationIso,
        data_dtype(data) == DataType::Null <==> data is Empty || data is Error,
        is_null_data(data) <==> data is Empty || data is Error,
{
}

/// The column of values, one in each row.
pub open spec fn column_of(values: Seq<Data>, strings: Option<Seq<Seq<char>>>) -> ColState
    decreases values.len(),
{
    if values.len() == 0 {
        empty_col()
    } else {
        col_after(
            column_of(values.drop_last(), strings),
            inferred_all(values),
            values.last(),
            values.len() - 1,
            strings,
        )
    }
}

/// How values of a type are stored.
pub open spec fn own_storage(dtype: DataType) -> Storage {
    match dtype {
        DataType::Int64 => Storage::Int64,
        DataType::Float64 => Storage::Float64,
        DataType::Boolean => Storage::Bool,
        DataType::String => Storage::String,
        DataType::Datetime => Storage::DateTime,
        DataType::Null => Storage::AnyValue,
    }
}

/// A column holds its values, each in its row. Where all that are not missing are of one
/// type, the column holds them as they are, nulls where they are missing; where they are
/// whole and floating-point numbers, it holds the whole ones so or as floating-point
/// numbers; and else it shows them. A column whose first value is not missing stores values
/// of one type, and numbers, by their type.
pub proof fn law_column_holds_its_values(values: Seq<Data>, strings: Option<Seq<Seq<char>>>)
    ensures
        ({
            let col = column_of(values, strings);
            &&& col.items.len() == values.len()
            &&& forall|i: int|
                #![trigger col.items[i]]
                0 <= i < values.len() ==> {
                    let value = value_item(values[i], strings);
                    &&& shows(col.items[i], value)
                    &&& is_null_data(values[i]) ==> col.items[i] is Null
                    &&& all_numbers(values) ==> col.items[i] == value || (value matches Item::Int(n)
                        && col.items[i] == Item::Float(Float::OfInt(n)))
                }
            &&& forall|t: DataType, i: int|
                #![trigger all_of(values, t), col.items[i]]
                0 <= i < values.len() && all_of(values, t) ==> col.items[i] == value_item(
                    values[i],
                    strings,
                )
            &&& values.len() > 0 && !is_null_data(values[0]) ==> {
                &&& forall|t: DataType|
                    #[trigger] all_of(values, t) ==> col.storage == own_storage(t)
                &&& all_numbers(values) && !all_of(values, DataType::Int64) ==> col.storage
                    is Float64
            }
        }),
{
    lemma_column(values, strings);
    let col = column_of(values, strings);
    law_inferred_type(values);
    if values.len() > 0 && !is_null_data(values[0]) {
        assert forall|t: DataType| #[trigger] all_of(values, t) implies col.storage == own_storage(
            t,
        ) by {
            lemma_one_type(values, t);
        }
        assert(!all_missing(values));
        if all_numbers(values) && !all_of(values, DataType::Int64) {
            lemma_numbers(values);
        }
    }
}

proof fn lemma_one_type(values: Seq<Data>, t: DataType)
    requires
        all_of(values, t),
        !all_missing(values),
    ensures
        inferred_all(values) == Some(t),
        t != DataType::Null,
{
    law_inferred_type(values);
    let i = choose|i: int| 0 <= i < values.len() && !is_null_data(#[trigger] values[i]);
    assert(data_dtype(values[i]) == t);
    if t == DataType::Float64 {
        assert(all_numbers(values));
    }
    if t == DataType::String {
        assert(!all_numbers(values));
    }
}

proof fn lemma_numbers(values: Seq<Data>)
    requires
        all_numbers(values),
        !all_missing(values),
        !all_of(values, DataType::Int64),
    ensures
        inferred_all(values) == Some(DataType::Float64),
{
    law_inferred_type(values);
    let i = choose|i: int| 0 <= i < values.len() && !is_null_data(#[trigger] values[i]);
    assert(data_dtype(values[i]) == DataType::Int64 || data_dtype(values[i]) == DataType::Float64);
}

proof fn lemma_front(values: Seq<Data>)
    requires
        values.len() > 0,
    ensures
        all_numbers(values) ==> all_numbers(values.drop_last()),
        forall|t: DataType| #[trigger] all_of(values, t) ==> all_of(values.drop_last(), t),
        all_missing(values) ==> all_missing(values.drop_last()),
{
    let front = values.drop_last();
    assert forall|i: int| 0 <= i < front.len() implies #[trigger] front[i] == values[i] by {}
    assert forall|t: DataType| #[trigger] all_of(values, t) implies all_of(front, t) by {
        assert forall|i: int| 0 <= i < front.len() implies is_null_data(#[trigger] front[i])
            || data_dtype(front[i]) == t by {
            assert(front[i] == values[i]);
        }
    }
}

proof fn lemma_column(values: Seq<Data>, strings: Option<Seq<Seq<char>>>)
    ensures
        ({
            let col = column_of(values, strings);
            let dtype = inferred_all(values);
            &&& col.items.len() == values.len()
            &&& storage_fits(col.storage, dtype)
            &&& col.storage is Empty <==> values.len() == 0
            &&& values.len() > 0 && !is_null_data(values[0]) && dtype != Some(DataType::String)
                ==> col.storage == storage_of(dtype) && dtype is Some
            &&& values.len() > 0 && !is_null_data(values[0]) && all_of(values, DataType::String)
                ==> col.storage is String
            &&& forall|i: int|
                #![trigger col.items[i]]
                0 <= i < values.len() ==> {
                    let value = value_item(values[i], strings);
                    &&& shows(col.items[i], value)
                    &&& is_null_data(values[i]) ==> col.items[i] is Null
                    &&& dtype != Some(DataType::String) ==> col.items[i] == value || dtype == Some(
                        DataType::Float64,
                    ) && (value matches Item::Int(n) && col.items[i] == Item::Float(
                        Float::OfInt(n),
                    ))
                    &&& all_of(values, DataType::String) ==> col.items[i] == value
                    &&& all_of(values, DataType::Float64) ==> col.items[i] == value
                }
        }),
    decreases values.len(),
{
    if values.len() > 0 {
        let front = values.drop_last();
        let data = values.last();
        let row = values.len() - 1;
        let before = column_of(front, strings);
        let current = inferred_all(front);
        let dtype = inferred_all(values);
        lemma_column(front, strings);
        lemma_front(values);
        law_value_lands_in_its_row(before, current, data, row, strings);
        law_inferred_type(values);
        law_inferred_type(front);
        let col = column_of(values, strings);
        assert(col == col_after(before, dtype, data, row, strings));
        assert(before.items + nulls(row - before.items.len()) =~= before.items);
        assert(values[row] == data);
        if front.len() > 0 {
            assert(front[0] == values[0]);
        }
        assert forall|i: int|
            #![trigger col.items[i]]
            0 <= i < values.len() implies {
            let value = value_item(values[i], strings);
            &&& shows(col.items[i], value)
            &&& is_null_data(values[i]) ==> col.items[i] is Null
            &&& dtype != Some(DataType::String) ==> col.items[i] == value || dtype == Some(
                DataType::Float64,
            ) && (value matches Item::Int(n) && col.items[i] == Item::Float(Float::OfInt(n)))
            &&& all_of(values, DataType::String) ==> col.items[i] == value
            &&& all_of(values, DataType::Float64) ==> col.items[i] == value
        } by {
            if i < row {
                assert(front[i] == values[i]);
                assert(shows(before.items[i], value_item(values[i], strings)));
            }
        }
    }
}

/// The columns of a frame have the names that they are given, in order, and `unknown` where
/// there are fewer names than columns; each has its own type and holds its own entries, and
/// nulls behind them up to the height of the frame.
pub proof fn law_frames_are_named(
    frame: Seq<ColumnSeries>,
    state: ColsState,
    headers: Seq<Seq<char>>,
    i: int,
)
    requires
        is_frame(frame, state, headers),
        0 <= i < frame.len(),
    ensures
        frame.len() == state.cols.len(),
        i < headers.len() ==> column_name(frame[i]) == headers[i],
        i >= headers.len() ==> column_name(frame[i]) == "unknown"@,
        i < state.dtypes.len() && state.dtypes[i] is Some ==> column_type(frame[i])
            == state.dtypes[i]->0,
        forall|r: int|
            #![trigger column_items(frame[i])[r]]
            0 <= r < column_items(frame[i]).len() ==> column_items(frame[i])[r] == (if r
                < state.cols[i].items.len() {
                state.cols[i].items[r]
            } else {
                Item::Null
            }),
        state.cols[i].items.len() <= column_items(frame[i]).len(),
{
    law_frame_columns_are_equally_long(state.cols);
    lemma_longest(state.cols);
}

/// A place in the shared strings stands for the string at that place, and for nothing where
/// there is none.
pub proof fn law_shared_strings_are_looked_up(strings: Seq<Seq<char>>, i: usize)
    ensures
        i < strings.len() ==> value_item(Data::SharedStringRef(i), Some(strings)) == Item::Text(
            strings[i as int],
        ),
        i >= strings.len() ==> value_item(Data::SharedStringRef(i), Some(strings)) is Null,
{
}

/// The longest column is one of the columns, and none is longer; without columns it is
/// nothing.
pub proof fn law_longest(cols: Seq<ColState>)
    ensures
        forall|i: int| 0 <= i < cols.len() ==> (#[trigger] cols[i]).items.len() <= longest(cols),
        longest(cols) > 0 ==> exists|i: int|
            0 <= i < cols.len() && (#[trigger] cols[i]).items.len() == longest(cols),
        longest(cols) >= 0,
    decreases cols.len(),
{
    lemma_longest(cols);
    if cols.len() > 0 {
        let front = cols.drop_last();
        law_longest(front);
        if longest(cols) == longest(front) && longest(cols) > 0 {
            let i = choose|i: int|
                0 <= i < front.len() && (#[trigger] front[i]).items.len() == longest(front);
            assert(cols[i] == front[i]);
        } else {
            assert(cols[cols.len() - 1].items.len() == longest(cols));
        }
    }
}

} // verus!
