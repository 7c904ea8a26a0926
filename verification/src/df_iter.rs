//! The batches of a worksheet: its cells, collected into frames of a fixed number
//! of rows.

use crate::arrow::SharedStrings;
use crate::error::{failure, ErrorKind, Failure, XlsxError};
use crate::excel_types::{data_text, Cell, Data, Dimensions};
use crate::frame_run::{frames_of, handed_out};
use crate::series::{column_too_long, series_fits, ColumnSeries};
use crate::sheet_fast::{
    cell_ranges, fast_range, fast_sheet, sheet_chunks, SheetFastReader, SheetTasks,
};
use crate::text::{
    decimal_digits, law_decimal_reads_back, law_digits_differ, push_decimal, signed_value,
    unsigned_value,
};
pub use crate::typed_col::{AnyValue, DataType, TypedCol};
use crate::typed_col::{any_value, data_fits, data_item};
pub use crate::typed_cols::TypedCols;
use crate::typed_cols::{
    cols_after, empty_col, header_texts, is_frame, longest, ColState, ColsState,
};
use crate::workbook::{name_text, workbook_sheets, workbook_strings, XlsxWorkbook};
use crate::xlsx_stream_lm::{loaded_for, not_opened, XlsxStreamReader};
use std::sync::Arc;
use vstd::prelude::*;

verus! {

/// The progress of a batch.
pub struct RunState {
    /// The largest row asked after so far.
    pub floor: int,
    /// Whether the batch has a row.
    pub started: bool,
    /// The rows of the batch so far.
    pub count: int,
    /// The last row that was taken.
    pub last: Option<u32>,
    /// Whether the last row asked after is to be skipped.
    pub skipped: bool,
}

/// What becomes of a cell.
pub enum StepItem {
    /// Its row is to be skipped.
    Skipped,
    /// It is taken, in the given row of the batch.
    Taken(int),
    /// It starts a row, and the batch is full.
    Full,
}

/// The larger of two integers.
pub open spec fn larger(a: int, b: int) -> int {
    if a < b {
        b
    } else {
        a
    }
}

/// Whether a row is to be skipped. Rows are asked after in ascending order: one
/// that lies behind is not.
pub open spec fn is_skipped(skips: Seq<u32>, floor: int, row: u32) -> bool {
    floor <= row && skips.contains(row)
}

/// What becomes of the next cell of a batch, which lies in `row`.
pub open spec fn run_step(run: RunState, skips: Seq<u32>, batch_size: int, row: u32) -> (
    RunState,
    StepItem,
) {
    let skip = is_skipped(skips, run.floor, row);
    let asked = RunState { floor: larger(run.floor, row as int), skipped: skip, ..run };
    if !run.started {
        if skip {
            (asked, StepItem::Skipped)
        } else {
            (
                RunState { started: true, count: 1, last: Some(row), ..asked },
                StepItem::Taken(0),
            )
        }
    } else if run.last != Some(row) {
        if skip {
            (asked, StepItem::Skipped)
        } else if run.count >= batch_size {
            (asked, StepItem::Full)
        } else {
            (
                RunState { count: run.count + 1, last: Some(row), ..asked },
                StepItem::Taken(run.count),
            )
        }
    } else if run.skipped {
        (run, StepItem::Skipped)
    } else {
        (run, StepItem::Taken(run.count - 1))
    }
}

/// Why a batch takes no more cells.
pub enum SplitEnd {
    /// There are no more.
    Exhausted,
    /// It is full, and the next cell starts a row.
    Full,
    /// The text of a cell is too long.
    TooLong,
}

/// A batch split off from a run of cells.
pub struct Split {
    pub run: RunState,
    /// The cells of the batch, each with its row in the batch.
    pub taken: Seq<(Cell<Data>, int)>,
    /// The cells after the batch.
    pub rest: Seq<Cell<Data>>,
    pub end: SplitEnd,
}

/// The batch at the start of a run of cells.
pub open spec fn split(
    run: RunState,
    skips: Seq<u32>,
    batch_size: int,
    cells: Seq<Cell<Data>>,
) -> Split
    decreases cells.len(),
{
    if cells.len() == 0 {
        Split { run, taken: Seq::empty(), rest: cells, end: SplitEnd::Exhausted }
    } else {
        let (after, step) = run_step(run, skips, batch_size, cells[0].position().0);
        match step {
            StepItem::Skipped => split(after, skips, batch_size, cells.skip(1)),
            StepItem::Full => Split {
                run: after,
                taken: Seq::empty(),
                rest: cells,
                end: SplitEnd::Full,
            },
            StepItem::Taken(row) => if data_fits(cells[0].value()) {
                let later = split(after, skips, batch_size, cells.skip(1));
                Split { taken: seq![(cells[0], row)] + later.taken, ..later }
            } else {
                Split {
                    run: after,
                    taken: Seq::empty(),
                    rest: cells.skip(1),
                    end: SplitEnd::TooLong,
                }
            },
        }
    }
}

/// The columns after the cells of a batch.
pub open spec fn cols_taken(
    state: ColsState,
    taken: Seq<(Cell<Data>, int)>,
    strings: Option<Seq<Seq<char>>>,
) -> ColsState
    decreases taken.len(),
{
    if taken.len() == 0 {
        state
    } else {
        let (cell, row) = taken.last();
        cols_after(
            cols_taken(state, taken.drop_last(), strings),
            cell.position().1 as int,
            cell.value(),
            row,
            strings,
        )
    }
}

/// Whether some column has an entry.
pub open spec fn any_entry(state: ColsState) -> bool {
    exists|i: int| 0 <= i < state.cols.len() && (#[trigger] state.cols[i]).items.len() > 0
}

/// A fixed text and a number.
pub open spec fn numbered(prefix: Seq<char>, n: int) -> Seq<char> {
    prefix + decimal_digits(n as nat)
}

/// The names of `n` columns of a sheet without a header: `col_0`, `col_1` and so on.
pub open spec fn col_names(n: int) -> Seq<Seq<char>> {
    Seq::new(n as nat, |i: int| numbered("col_"@, i))
}

/// Names filled up to `n` of them: `Unknown_` and the number of the column.
pub open spec fn with_unknown(headers: Seq<Seq<char>>, n: int) -> Seq<Seq<char>> {
    let more: nat = if n > headers.len() {
        (n - headers.len()) as nat
    } else {
        0
    };
    headers + Seq::new(more, |i: int| numbered("Unknown_"@, headers.len() + i))
}

/// The text of a header's cell. A shared string that does not exist is empty.
pub open spec fn header_text(data: Data, strings: Option<Seq<Seq<char>>>) -> Seq<char> {
    match data {
        Data::SharedStringRef(index) => match strings {
            Some(texts) => if index < texts.len() {
                texts[index as int]
            } else {
                Seq::empty()
            },
            None => Seq::empty(),
        },
        other => data_text(other),
    }
}

/// How far the header is read.
#[derive(Debug, Clone, Copy, PartialEq, Eq, Structural)]
pub enum HeaderPhase {
    Start,
    /// In the header, which is the given row.
    Row(u32),
    Done,
}

/// What is known of a sheet before its header is read.
pub struct HeaderContext {
    pub has_header: bool,
    /// The last row and the last column of the used range.
    pub end: (u32, u32),
    /// The columns that room was made for.
    pub columns: int,
    pub strings: Option<Seq<Seq<char>>>,
    pub skips: Seq<u32>,
    pub batch_size: int,
}

/// The progress of the header.
pub struct HeaderState {
    pub headers: Seq<Seq<char>>,
    pub phase: HeaderPhase,
    /// The first cell that belongs to the data.
    pub cache: Option<Cell<Data>>,
    /// The number of batches to come.
    pub len: int,
}

/// The rows from `low` to `high` that are to be skipped, one counted as often as it
/// is listed.
pub open spec fn count_between(skips: Seq<u32>, low: int, high: u32) -> int
    decreases skips.len(),
{
    if skips.len() == 0 {
        0
    } else {
        count_between(skips.drop_last(), low, high) + (if low <= skips.last() <= high {
            1int
        } else {
            0int
        })
    }
}

/// The number of batches of a sheet whose first cell lies in row `first`: the rows
/// from there to the end of the used range, the header left out, less those that
/// are to be skipped, in batches.
pub open spec fn batch_count(context: HeaderContext, first: u32) -> int {
    wrap_usize(rows_left(context, first) + context.batch_size - 1) / context.batch_size
}

/// A sum of two indices, wrapping round at the end of their range.
pub open spec fn wrap_usize(n: int) -> int {
    if n > usize::MAX {
        n - usize::MAX - 1
    } else {
        n
    }
}

/// The header after one more cell. With a header, the cells of the first row name
/// the columns: columns that are passed over, and ones with an empty name, are
/// called `Unknown_` and their number. The first cell of another row ends the
/// header, which is then filled up to the used range. Without a header, the first
/// cell ends it.
pub open spec fn header_step(state: HeaderState, context: HeaderContext, cell: Cell<Data>) -> HeaderState {
    let (row, col) = cell.position();
    match state.phase {
        HeaderPhase::Done => state,
        HeaderPhase::Start => if context.has_header {
            HeaderState {
                headers: state.headers.push(header_text(cell.value(), context.strings)),
                phase: HeaderPhase::Row(row),
                ..state
            }
        } else {
            HeaderState {
                headers: state.headers + col_names(context.columns),
                phase: HeaderPhase::Done,
                cache: Some(cell),
                len: batch_count(context, row),
            }
        },
        HeaderPhase::Row(first) => if row == first {
            let text = header_text(cell.value(), context.strings);
            let name = if text.len() == 0 {
                numbered("Unknown_"@, col as int)
            } else {
                text
            };
            HeaderState { headers: with_unknown(state.headers, col as int).push(name), ..state }
        } else {
            HeaderState {
                headers: with_unknown(state.headers, context.end.1 + 1),
                phase: HeaderPhase::Done,
                cache: Some(cell),
                len: batch_count(context, first),
            }
        },
    }
}

/// The header of a sheet whose cells are all read.
pub open spec fn header_end(state: HeaderState, context: HeaderContext) -> HeaderState {
    match state.phase {
        HeaderPhase::Done => state,
        HeaderPhase::Start => HeaderState {
            headers: state.headers + col_names(context.columns),
            phase: HeaderPhase::Done,
            len: 0,
            ..state
        },
        HeaderPhase::Row(first) => HeaderState {
            phase: HeaderPhase::Done,
            len: batch_count(context, first),
            ..state
        },
    }
}

/// The header after a run of cells, and the cells after it.
pub open spec fn header_run(
    state: HeaderState,
    context: HeaderContext,
    cells: Seq<Cell<Data>>,
) -> (HeaderState, Seq<Cell<Data>>)
    decreases cells.len(),
{
    if state.phase == HeaderPhase::Done || cells.len() == 0 {
        (state, cells)
    } else {
        header_run(header_step(state, context, cells[0]), context, cells.skip(1))
    }
}

/// Whether numbers are in ascending order.
pub open spec fn ascending(numbers: Seq<u32>) -> bool {
    forall|i: int, j: int| 0 <= i <= j < numbers.len() ==> numbers[i] <= numbers[j]
}

/// `<[u32]>::sort_unstable`: the same numbers in ascending order.
#[verifier::external_body]
pub(crate) fn sort_rows(rows: &mut Vec<u32>)
    ensures
        ascending(final(rows)@),
        final(rows)@.to_multiset() == old(rows)@.to_multiset(),
{
    rows.sort_unstable()
}

/// A value as a value of mixed types.
pub trait IntoAnyValue: Sized {
    fn into_anyvalue(self) -> AnyValue;
}

impl IntoAnyValue for Data {
    fn into_anyvalue(self) -> (value: AnyValue)
        ensures
            value@ == data_item(self),
    {
        any_value(self)
    }
}

/// What a value of a cell can become.
pub trait FromData: Sized {
    fn from_data(data: Data) -> Self;
}

impl FromData for Data {
    fn from_data(data: Data) -> (value: Self)
        ensures
            value == data,
    {
        data
    }
}

impl FromData for AnyValue {
    fn from_data(data: Data) -> (value: Self)
        ensures
            value@ == data_item(data),
    {
        any_value(data)
    }
}

impl FromData for String {
    fn from_data(data: Data) -> (value: Self)
        ensures
            value@ == data_text(data),
    {
        data.into_text()
    }
}

/// The text of a header's cell; shared strings are looked up.
pub fn cell_value_to_header(data: Data, strings: Option<&Arc<SharedStrings>>) -> (text: String)
    requires
        strings matches Some(s) ==> s.wf(),
    ensures
        text@ == header_text(
            data,
            match strings {
                Some(s) => Some(s@),
                None => None,
            },
        ),
{
    match data {
        Data::SharedStringRef(index) => match strings {
            Some(table) => match table.get(index) {
                Some(text) => text,
                None => String::new(),
            },
            None => String::new(),
        },
        other => other.into_text(),
    }
}

fn numbered_text(prefix: &str, n: usize) -> (text: String)
    ensures
        text@ == numbered(prefix@, n as int),
{
    let mut text = prefix.to_owned();
    push_decimal(&mut text, n as u64);
    text
}

/// What a request for a batch led to.
pub enum Next {
    /// The columns of a batch.
    Frame(Vec<ColumnSeries>),
    /// There are no more batches.
    End,
    /// More cells are due before it can be told.
    NeedCells,
    Failed(XlsxError),
}

/// How far the header could be read.
pub enum HeaderNext {
    Done,
    /// More cells are due.
    NeedCells,
    Failed(XlsxError),
}

/// What became of a cell.
pub enum Taken {
    Skipped,
    Taken,
    /// The batch is full; the cell is given back.
    Full(Cell<Data>),
}

/// The batches of a worksheet. Cells are supplied as they are read; batches are
/// handed out as soon as they are full.
pub struct DataFrameIter {
    cols: TypedCols,
    /// The cells supplied so far, the next one last.
    cells: Vec<Cell<Data>>,
    closed: bool,
    failure: Option<XlsxError>,
    dimensions: Dimensions,
    cell_cache: Option<Cell<Data>>,
    has_header: bool,
    header: HeaderPhase,
    len: usize,
    batch_start_row: Option<u32>,
    current_row_count: usize,
    last_processed_row: Option<u32>,
    skip_rows_sorted: Vec<u32>,
    skip_rows_idx: usize,
    current_row_skipped: bool,
    floor: Ghost<int>,
}

/// The rows per batch: as given, else all rows of the used range, the header left
/// out.
pub open spec fn rows_per_batch(batch_size: Option<usize>, end_row: u32, has_header: bool) -> int {
    match batch_size {
        Some(n) => n as int,
        None => end_row + (if has_header {
            0int
        } else {
            1int
        }),
    }
}

impl DataFrameIter {
    /// The progress of the batch.
    pub closed spec fn run(&self) -> RunState {
        RunState {
            floor: self.floor@,
            started: self.batch_start_row is Some,
            count: self.current_row_count as int,
            last: self.last_processed_row,
            skipped: self.current_row_skipped,
        }
    }

    /// The columns of the batch.
    pub closed spec fn state(&self) -> ColsState {
        self.cols.state()
    }

    /// The names of the columns.
    pub open spec fn headers(&self) -> Seq<Seq<char>> {
        self.header_state().headers
    }

    /// The rows to be skipped, in ascending order.
    pub open spec fn skips(&self) -> Seq<u32> {
        self.context().skips
    }

    /// The rows per batch.
    pub open spec fn batch_size(&self) -> int {
        self.context().batch_size
    }

    /// The cells that are supplied and not taken.
    pub closed spec fn upcoming(&self) -> Seq<Cell<Data>> {
        match self.cell_cache {
            Some(cell) => seq![cell] + self.cells@.reverse(),
            None => self.cells@.reverse(),
        }
    }

    /// Whether no more cells will be supplied.
    pub closed spec fn is_closed(&self) -> bool {
        self.closed
    }

    /// The error that the cells end with, if they do.
    pub closed spec fn pending_failure(&self) -> Option<Failure> {
        match self.failure {
            Some(e) => Some(e@),
            None => None,
        }
    }

    /// The shared strings of the workbook.
    pub open spec fn texts(&self) -> Option<Seq<Seq<char>>> {
        self.context().strings
    }

    /// What is known of the sheet before its header is read.
    pub closed spec fn context(&self) -> HeaderContext {
        HeaderContext {
            has_header: self.has_header,
            end: self.dimensions.end,
            columns: self.cols.cols.len() as int,
            strings: self.cols.texts(),
            skips: self.skip_rows_sorted@,
            batch_size: self.cols.batch_size as int,
        }
    }

    /// The progress of the header.
    pub closed spec fn header_state(&self) -> HeaderState {
        HeaderState {
            headers: header_texts(self.cols.headers@),
            phase: self.header,
            cache: self.cell_cache,
            len: self.len as int,
        }
    }

    /// The number of batches to come.
    pub open spec fn batches(&self) -> int {
        self.header_state().len
    }

    /// The columns of all frames that the cells supplied so far make, if they are all.
    pub open spec fn frames(&self) -> Seq<ColsState> {
        frames_of(
            self.run(),
            self.state(),
            self.skips(),
            self.batch_size(),
            self.texts(),
            self.upcoming(),
        )
    }

    spec fn cells_wf(cells: Seq<Cell<Data>>) -> bool {
        forall|i: int| 0 <= i < cells.len() ==> (#[trigger] cells[i]).position().1 < usize::MAX
    }

    pub closed spec fn wf(&self) -> bool {
        &&& self.cols.wf()
        &&& ascending(self.skip_rows_sorted@)
        &&& self.skip_rows_idx <= self.skip_rows_sorted.len()
        &&& forall|i: int|
            0 <= i < self.skip_rows_idx ==> self.skip_rows_sorted@[i] < self.floor@
        &&& forall|i: int|
            self.skip_rows_idx <= i < self.skip_rows_sorted.len() ==> self.floor@
                <= self.skip_rows_sorted@[i]
        &&& self.batch_start_row is Some ==> self.current_row_count >= 1
        &&& self.cell_cache is Some ==> self.batch_start_row is None
        &&& self.header != HeaderPhase::Done ==> self.cell_cache is None && self.batch_start_row
            is None
        &&& Self::cells_wf(self.cells@)
        &&& self.cell_cache matches Some(cell) ==> cell.position().1 < usize::MAX
    }

    /// Batches of a sheet of some used range, of which no cell is supplied yet.
    /// `skip_rows` lists rows, counted from zero, that are left out of the data.
    pub fn new(
        batch_size: Option<usize>,
        dimensions: Dimensions,
        strings: Arc<SharedStrings>,
        has_header: bool,
        skip_rows: Option<Vec<u32>>,
    ) -> (iter: Self)
        requires
            strings.wf(),
            dimensions.end.1 < usize::MAX,
            dimensions.end.0 < usize::MAX,
        ensures
            iter.wf(),
            iter.batch_size() == rows_per_batch(batch_size, dimensions.end.0, has_header),
            iter.state() == fresh_cols(dimensions.end.1),
            iter.context().has_header == has_header,
            iter.context().end == dimensions.end,
            iter.context().columns == dimensions.end.1 + 1,
            iter.texts() == Some(strings@),
            iter.header_state() == no_header(),
            iter.run() == no_rows(),
            iter.upcoming() == Seq::<Cell<Data>>::empty(),
            !iter.is_closed(),
            iter.pending_failure() is None,
            iter.skips().to_multiset() == (match skip_rows {
                Some(rows) => rows@.to_multiset(),
                None => Seq::<u32>::empty().to_multiset(),
            }),
    {
        let size: usize = match batch_size {
            Some(n) => n,
            None => dimensions.end.0 as usize + if has_header {
                0
            } else {
                1
            },
        };
        let mut cols = TypedCols::new(&dimensions, size);
        cols.strings = Some(strings);
        let mut skip_rows_sorted: Vec<u32> = match skip_rows {
            Some(rows) => rows,
            None => Vec::new(),
        };
        sort_rows(&mut skip_rows_sorted);
        let iter = DataFrameIter {
            cols,
            cells: Vec::new(),
            closed: false,
            failure: None,
            dimensions,
            cell_cache: None,
            has_header,
            header: HeaderPhase::Start,
            len: 0,
            batch_start_row: None,
            current_row_count: 0,
            last_processed_row: None,
            skip_rows_sorted,
            skip_rows_idx: 0,
            current_row_skipped: false,
            floor: Ghost(0),
        };
        assert(iter.upcoming() =~= Seq::<Cell<Data>>::empty());
        assert(iter.headers() =~= Seq::<Seq<char>>::empty());
        iter
    }

    /// Starts anew with another sheet: everything read so far is forgotten; the rows
    /// per batch and the rows to be skipped stay.
    pub fn turn_to(&mut self, dimensions: Dimensions, strings: Arc<SharedStrings>)
        requires
            old(self).wf(),
            strings.wf(),
            dimensions.end.1 < usize::MAX,
        ensures
            final(self).wf(),
            final(self).batch_size() == old(self).batch_size(),
            final(self).skips() == old(self).skips(),
            final(self).state() == fresh_cols(dimensions.end.1),
            final(self).context().has_header == old(self).context().has_header,
            final(self).context().end == dimensions.end,
            final(self).context().columns == dimensions.end.1 + 1,
            final(self).texts() == Some(strings@),
            final(self).header_state() == no_header(),
            final(self).run() == no_rows(),
            final(self).upcoming() == Seq::<Cell<Data>>::empty(),
            !final(self).is_closed(),
            final(self).pending_failure() is None,
    {
        let mut cols = TypedCols::new(&dimensions, self.cols.batch_size);
        cols.strings = Some(strings);
        self.cols = cols;
        self.dimensions = dimensions;
        self.cells = Vec::new();
        self.closed = false;
        self.failure = None;
        self.cell_cache = None;
        self.header = HeaderPhase::Start;
        self.len = 0;
        self.batch_start_row = None;
        self.current_row_count = 0;
        self.last_processed_row = None;
        self.skip_rows_idx = 0;
        self.floor = Ghost(0);
        self.current_row_skipped = false;
        assert(self.upcoming() =~= Seq::<Cell<Data>>::empty());
        assert(self.headers() =~= Seq::<Seq<char>>::empty());
    }

    /// Supplies the cells that come next in the sheet.
    pub fn supply(&mut self, cells: Vec<Cell<Data>>)
        requires
            old(self).wf(),
            forall|i: int| 0 <= i < cells.len() ==> (#[trigger] cells[i]).position().1 < usize::MAX,
        ensures
            final(self).wf(),
            final(self).upcoming() == old(self).upcoming() + cells@,
            final(self).run() == old(self).run(),
            final(self).state() == old(self).state(),
            final(self).header_state() == old(self).header_state(),
            final(self).context() == old(self).context(),
            final(self).is_closed() == old(self).is_closed(),
            final(self).pending_failure() == old(self).pending_failure(),
    {
        let ghost supplied = cells@;
        let ghost waiting = self.cells@;
        let mut reversed: Vec<Cell<Data>> = Vec::with_capacity(cells.len());
        let mut cells = cells;
        while cells.len() > 0
            invariant
                supplied == cells@ + reversed@.reverse(),
            decreases cells.len(),
        {
            let ghost left = cells@;
            let ghost so_far = reversed@;
            if let Some(cell) = cells.pop() {
                reversed.push(cell);
                assert(left =~= cells@.push(cell));
                assert(reversed@.reverse() =~= seq![cell] + so_far.reverse());
                assert(supplied =~= cells@ + reversed@.reverse());
            }
        }
        assert(supplied =~= reversed@.reverse());
        assert forall|i: int| 0 <= i < reversed.len() implies (#[trigger] reversed@[i]).position().1
            < usize::MAX by {
            assert(reversed@[i] == supplied[reversed.len() - 1 - i]);
        }
        reversed.append(&mut self.cells);
        self.cells = reversed;
        assert(self.cells@.reverse() =~= waiting.reverse() + supplied);
        assert(self.upcoming() =~= old(self).upcoming() + supplied);
    }

    /// Says that no more cells will be supplied, and with which error the cells end
    /// if they do.
    pub fn close(&mut self, failure: Option<XlsxError>)
        requires
            old(self).wf(),
        ensures
            final(self).wf(),
            final(self).is_closed(),
            final(self).pending_failure() == (match failure {
                Some(e) => Some(e@),
                None => None,
            }),
            final(self).upcoming() == old(self).upcoming(),
            final(self).run() == old(self).run(),
            final(self).state() == old(self).state(),
            final(self).header_state() == old(self).header_state(),
            final(self).context() == old(self).context(),
    {
        self.closed = true;
        self.failure = failure;
    }

    /// The number of batches to come, as far as the used range tells.
    pub fn len(&self) -> (n: usize)
        ensures
            n == self.batches(),
    {
        self.len
    }

    /// The number of batches to come, as a lower and an upper bound.
    pub fn size_hint(&self) -> (hint: (usize, Option<usize>))
        ensures
            hint.0 == self.batches(),
            hint.1 == Some(hint.0),
    {
        (self.len, Some(self.len))
    }

    /// Whether a row is to be skipped. Rows are asked after in ascending order.
    pub fn is_row_skipped(&mut self, row: u32) -> (skipped: bool)
        requires
            old(self).wf(),
        ensures
            final(self).wf(),
            skipped == is_skipped(old(self).skips(), old(self).run().floor, row),
            old(self).run().floor <= row ==> skipped == old(self).skips().contains(row),
            final(self).run() == (RunState {
                floor: larger(old(self).run().floor, row as int),
                ..old(self).run()
            }),
            final(self).state() == old(self).state(),
            final(self).header_state() == old(self).header_state(),
            final(self).context() == old(self).context(),
            final(self).upcoming() == old(self).upcoming(),
            final(self).is_closed() == old(self).is_closed(),
            final(self).pending_failure() == old(self).pending_failure(),
    {
        self.ask_row(row)
    }

    fn ask_row(&mut self, row: u32) -> (skipped: bool)
        requires
            old(self).wf(),
        ensures
            final(self).wf(),
            skipped == is_skipped(old(self).skips(), old(self).run().floor, row),
            *final(self) == (DataFrameIter {
                skip_rows_idx: final(self).skip_rows_idx,
                floor: Ghost(larger(old(self).floor@, row as int)),
                ..*old(self)
            }),
    {
        while self.skip_rows_idx < self.skip_rows_sorted.len()
            && self.skip_rows_sorted[self.skip_rows_idx] < row
            invariant
                old(self).skip_rows_idx <= self.skip_rows_idx <= self.skip_rows_sorted.len(),
                *self == (DataFrameIter { skip_rows_idx: self.skip_rows_idx, ..*old(self) }),
                old(self).wf(),
                forall|i: int|
                    old(self).skip_rows_idx <= i < self.skip_rows_idx
                        ==> self.skip_rows_sorted@[i] < row,
            decreases self.skip_rows_sorted.len() - self.skip_rows_idx,
        {
            self.skip_rows_idx += 1;
        }
        proof {
            self.floor@ = larger(self.floor@, row as int);
        }
        let found = self.skip_rows_idx < self.skip_rows_sorted.len()
            && self.skip_rows_sorted[self.skip_rows_idx] == row;
        proof {
            let skips = self.skip_rows_sorted@;
            if is_skipped(skips, old(self).floor@, row) {
                let i = choose|i: int| 0 <= i < skips.len() && skips[i] == row;
                assert(self.skip_rows_idx <= i);
                assert(skips[self.skip_rows_idx as int] <= skips[i]);
            }
            if found {
                assert(skips[self.skip_rows_idx as int] == row);
            }
        }
        found
    }
}

/// What asking for the next batch comes to: the batch is split off from the cells that
/// are supplied and handed out; where they do not fill it, more are asked for, and
/// after the last cell what there is is handed out.
pub open spec fn next_step(before: DataFrameIter, next: Next, after: DataFrameIter) -> bool {
    let part = split(
        before.run(),
        before.skips(),
        before.batch_size(),
        before.upcoming(),
    );
    let cols = cols_taken(before.state(), part.taken, before.texts());
    let left = ColsState { cols: Seq::empty(), ..cols };
    &&& after.upcoming() == part.rest
    &&& match part.end {
        SplitEnd::TooLong => {
            &&& next matches Next::Failed(e) && e@ == failure(
                ErrorKind::TooLong,
                "Text exceeds 4 GiB"@,
            )
            &&& after.state() == cols
            &&& after.run() == part.run
            &&& after.batches() == before.batches()
            &&& after.pending_failure() == before.pending_failure()
        },
        SplitEnd::Full => if any_entry(cols) {
            &&& is_next_frame(next, cols, before.headers())
            &&& after.state() == left
            &&& after.run() == after_batch(part.run)
            &&& after.batches() == one_fewer(before.batches())
            &&& after.pending_failure() == before.pending_failure()
        } else {
            &&& next is End
            &&& after.state() == cols
            &&& after.run() == part.run
            &&& after.batches() == one_fewer(before.batches())
            &&& after.pending_failure() == before.pending_failure()
        },
        SplitEnd::Exhausted => if !before.is_closed() {
            &&& next is NeedCells
            &&& after.state() == cols
            &&& after.run() == part.run
            &&& after.batches() == before.batches()
            &&& after.pending_failure() == before.pending_failure()
        } else if before.pending_failure() is Some {
            &&& next matches Next::Failed(e) && Some(e@) == before.pending_failure()
            &&& after.pending_failure() is None
            &&& after.state() == cols
            &&& after.run() == part.run
            &&& after.batches() == before.batches()
        } else if part.run.started && any_entry(cols) {
            &&& is_next_frame(next, cols, before.headers())
            &&& after.state() == left
            &&& after.run() == after_batch(part.run)
            &&& after.batches() == one_fewer(before.batches())
        } else {
            &&& next is End
            &&& after.state() == cols
            &&& after.run() == part.run
            &&& after.batches() == before.batches()
        },
    }
}

/// What a call of `DataFrameIter::next` comes to. Once all cells are supplied, it hands
/// out the first of the frames that are due, and leaves the others.
pub open spec fn next_call(before: DataFrameIter, next: Next, after: DataFrameIter) -> bool {
    &&& after.wf()
    &&& after.header_state().phase == HeaderPhase::Done
    &&& after.skips() == before.skips()
    &&& after.batch_size() == before.batch_size()
    &&& after.texts() == before.texts()
    &&& after.context().has_header == before.context().has_header
    &&& after.context().end == before.context().end
    &&& after.headers() == before.headers()
    &&& after.is_closed() == before.is_closed()
    &&& next_step(before, next, after)
    &&& before.is_closed() && before.pending_failure() is None && !(split(
        before.run(),
        before.skips(),
        before.batch_size(),
        before.upcoming(),
    ).end is TooLong) ==> {
        &&& after.pending_failure() is None
        &&& match next {
            Next::End => before.frames().len() == 0,
            _ => before.frames().len() > 0 && is_next_frame(
                next,
                before.frames()[0],
                before.headers(),
            ) && after.frames() == before.frames().skip(1),
        }
    }
}

/// What a call of `DataFrameIter::find_header` comes to. A header that was read stays as
/// it is.
pub open spec fn header_call(
    before: DataFrameIter,
    next: HeaderNext,
    after: DataFrameIter,
) -> bool {
    let (reached, rest) = header_run(before.header_state(), before.context(), before.upcoming());
    &&& after.wf()
    &&& after.context() == before.context()
    &&& after.run() == before.run()
    &&& after.state() == before.state()
    &&& after.is_closed() == before.is_closed()
    &&& before.header_state().phase == HeaderPhase::Done ==> next is Done && after == before
    &&& before.header_state().phase != HeaderPhase::Done ==> {
        &&& after.upcoming() == data_cells(reached, rest)
        &&& if reached.phase == HeaderPhase::Done {
            &&& next is Done
            &&& after.header_state() == reached
            &&& after.pending_failure() == before.pending_failure()
        } else if !before.is_closed() {
            &&& next is NeedCells
            &&& after.header_state() == reached
            &&& after.pending_failure() == before.pending_failure()
        } else {
            match before.pending_failure() {
                Some(f) => {
                    &&& next matches HeaderNext::Failed(e) && e@ == f
                    &&& after.header_state() == reached
                    &&& after.pending_failure() is None
                },
                None => {
                    &&& next is Done
                    &&& after.header_state() == header_end(reached, before.context())
                    &&& after.pending_failure() is None
                },
            }
        }
    }
}

/// Whether the columns of a batch are handed out: as a frame, or, where they are too
/// long for one, as an error.
pub open spec fn is_next_frame(next: Next, cols: ColsState, headers: Seq<Seq<char>>) -> bool {
    match next {
        Next::Frame(frame) => series_fits(longest(cols.cols)) && is_frame(frame@, cols, headers),
        Next::Failed(e) => !series_fits(longest(cols.cols)) && e@ == column_too_long(),
        _ => false,
    }
}

/// The progress of a batch that was handed out.
pub open spec fn after_batch(run: RunState) -> RunState {
    RunState { started: false, count: 0, last: None, ..run }
}

/// One batch fewer to come; none stays none.
pub open spec fn one_fewer(n: int) -> int {
    if n > 0 {
        n - 1
    } else {
        n
    }
}

fn push_names(headers: &mut Vec<String>, prefix: &str, from: usize, to: usize)
    ensures
        header_texts(final(headers)@) == header_texts(old(headers)@) + Seq::new(
            if from < to {
                (to - from) as nat
            } else {
                0
            },
            |i: int| numbered(prefix@, from + i),
        ),
{
    let ghost before = header_texts(headers@);
    let mut i: usize = from;
    assert(header_texts(headers@) =~= before + Seq::new(0, |k: int| numbered(prefix@, from + k)));
    while i < to
        invariant
            from <= i,
            i <= to || i == from,
            header_texts(headers@) == before + Seq::new(
                (i - from) as nat,
                |k: int| numbered(prefix@, from + k),
            ),
        decreases to - i,
    {
        let ghost so_far = headers@;
        headers.push(numbered_text(prefix, i));
        i += 1;
        assert(header_texts(headers@) =~= header_texts(so_far).push(numbered(prefix@, i - 1)));
        assert(header_texts(headers@) =~= before + Seq::new(
            (i - from) as nat,
            |k: int| numbered(prefix@, from + k),
        ));
    }
}

impl DataFrameIter {
    fn count_skips(&self, low: u64, high: u32) -> (n: usize)
        ensures
            n == count_between(self.skips(), low as int, high),
            n <= self.skips().len(),
    {
        let mut n: usize = 0;
        let mut i: usize = 0;
        let ghost skips = self.skip_rows_sorted@;
        while i < self.skip_rows_sorted.len()
            invariant
                i <= self.skip_rows_sorted.len(),
                n <= i,
                skips == self.skip_rows_sorted@,
                n == count_between(skips.take(i as int), low as int, high),
            decreases self.skip_rows_sorted.len() - i,
        {
            let row: u32 = self.skip_rows_sorted[i];
            if low <= row as u64 && row <= high {
                n += 1;
            }
            i += 1;
            assert(skips.take(i as int).drop_last() =~= skips.take(i - 1));
        }
        assert(skips.take(i as int) =~= skips);
        n
    }

    /// The rows of the used range that are left when the header and the rows to be
    /// skipped are taken away.
    fn count_rows_left(&self, first: u32) -> (left: usize)
        ensures
            left == rows_left(self.context(), first),
    {
        let span: u32 = self.dimensions.end.0.wrapping_sub(first);
        let rows: u32 = if self.has_header {
            span
        } else {
            span.wrapping_add(1)
        };
        let low: u64 = if self.has_header {
            first as u64 + 1
        } else {
            first as u64
        };
        let skipped: usize = self.count_skips(low, self.dimensions.end.0);
        (rows as usize).saturating_sub(skipped)
    }

    fn count_batches(&self, first: u32) -> (n: usize)
        requires
            self.cols.batch_size > 0,
        ensures
            n == batch_count(self.context(), first),
    {
        let left: usize = self.count_rows_left(first);
        let size: usize = self.cols.batch_size;
        let rounded: usize = left.wrapping_add(size).wrapping_sub(1);
        assert(rounded == wrap_usize(left + size - 1));
        rounded / size
    }

    fn name_columns(&mut self)
        requires
            old(self).wf(),
        ensures
            *final(self) == (DataFrameIter { cols: final(self).cols, ..*old(self) }),
            final(self).cols == (TypedCols { headers: final(self).cols.headers, ..old(self).cols }),
            final(self).headers() == old(self).headers() + col_names(old(self).context().columns),
    {
        let n: usize = self.cols.cols.len();
        push_names(&mut self.cols.headers, "col_", 0, n);
        assert(self.headers() =~= old(self).headers() + col_names(n as int));
    }

    fn fill_names(&mut self, n: usize)
        requires
            old(self).wf(),
        ensures
            *final(self) == (DataFrameIter { cols: final(self).cols, ..*old(self) }),
            final(self).cols == (TypedCols { headers: final(self).cols.headers, ..old(self).cols }),
            final(self).headers() == with_unknown(old(self).headers(), n as int),
    {
        let have: usize = self.cols.headers.len();
        push_names(&mut self.cols.headers, "Unknown_", have, n);
        assert(self.headers() =~= with_unknown(old(self).headers(), n as int));
    }

    fn take_header_cell(&mut self, cell: Cell<Data>)
        requires
            old(self).wf(),
            old(self).header != HeaderPhase::Done,
            old(self).cols.batch_size > 0,
            old(self).dimensions.end.1 < usize::MAX,
            cell.position().1 < usize::MAX,
        ensures
            final(self).wf(),
            final(self).header_state() == header_step(
                old(self).header_state(),
                old(self).context(),
                cell,
            ),
            final(self).context() == old(self).context(),
            final(self).cells == old(self).cells,
            final(self).run() == old(self).run(),
            final(self).state() == old(self).state(),
            final(self).is_closed() == old(self).is_closed(),
            final(self).pending_failure() == old(self).pending_failure(),
            final(self).dimensions == old(self).dimensions,
            final(self).cols.batch_size == old(self).cols.batch_size,
    {
        let (row, col) = cell.get_position();
        match self.header {
            HeaderPhase::Done => {},
            HeaderPhase::Start => {
                if self.has_header {
                    let text = cell_value_to_header(cell.into_value(), self.cols.strings.as_ref());
                    let ghost before = self.cols.headers@;
                    self.cols.headers.push(text);
                    assert(header_texts(self.cols.headers@) =~= header_texts(before).push(text@));
                    self.header = HeaderPhase::Row(row);
                } else {
                    let n: usize = self.count_batches(row);
                    self.name_columns();
                    self.cell_cache = Some(cell);
                    self.len = n;
                    self.header = HeaderPhase::Done;
                }
            },
            HeaderPhase::Row(first) => {
                if row == first {
                    self.fill_names(col as usize);
                    let text = cell_value_to_header(cell.into_value(), self.cols.strings.as_ref());
                    let name = if text.as_str().is_empty() {
                        numbered_text("Unknown_", col as usize)
                    } else {
                        text
                    };
                    let ghost before = self.cols.headers@;
                    self.cols.headers.push(name);
                    assert(header_texts(self.cols.headers@) =~= header_texts(before).push(name@));
                } else {
                    let n: usize = self.count_batches(first);
                    let last: usize = self.dimensions.end.1 as usize + 1;
                    self.fill_names(last);
                    self.cell_cache = Some(cell);
                    self.len = n;
                    self.header = HeaderPhase::Done;
                }
            },
        }
    }

    fn end_header(&mut self)
        requires
            old(self).wf(),
            old(self).cols.batch_size > 0 || old(self).header == HeaderPhase::Start,
        ensures
            final(self).wf(),
            final(self).header_state() == header_end(old(self).header_state(), old(self).context()),
            final(self).context() == old(self).context(),
            final(self).cells == old(self).cells,
            final(self).run() == old(self).run(),
            final(self).state() == old(self).state(),
            final(self).is_closed() == old(self).is_closed(),
            final(self).pending_failure() == old(self).pending_failure(),
    {
        match self.header {
            HeaderPhase::Done => {},
            HeaderPhase::Start => {
                self.name_columns();
                self.len = 0;
                self.header = HeaderPhase::Done;
            },
            HeaderPhase::Row(first) => {
                let n: usize = self.count_batches(first);
                self.len = n;
                self.header = HeaderPhase::Done;
            },
        }
    }

    /// Reads the header from the cells that are supplied. With a header, its cells
    /// are taken; the first cell of the data is kept for the batches.
    pub fn find_header(&mut self) -> (next: HeaderNext)
        requires
            old(self).wf(),
            old(self).batch_size() > 0 || old(self).upcoming().len() == 0,
            old(self).batch_size() > 0 || old(self).header_state().phase == HeaderPhase::Start,
            old(self).context().end.1 < usize::MAX,
        ensures
            header_call(*old(self), next, *final(self)),
    {
        if let HeaderPhase::Done = self.header {
            return HeaderNext::Done;
        }
        while self.header != HeaderPhase::Done && self.cells.len() > 0
            invariant
                self.wf(),
                old(self).wf(),
                old(self).header != HeaderPhase::Done,
                old(self).cell_cache is None,
                self.cols.batch_size > 0 || self.cells.len() == 0,
                self.cols.batch_size > 0 || self.header == HeaderPhase::Start,
                self.dimensions.end.1 < usize::MAX,
                self.context() == old(self).context(),
                self.run() == old(self).run(),
                self.state() == old(self).state(),
                self.is_closed() == old(self).is_closed(),
                self.pending_failure() == old(self).pending_failure(),
                header_run(
                    old(self).header_state(),
                    old(self).context(),
                    old(self).upcoming(),
                ) == header_run(
                    self.header_state(),
                    self.context(),
                    self.cells@.reverse(),
                ),
            decreases self.cells.len(),
        {
            let ghost waiting = self.cells@;
            assert(waiting.reverse()[0] == waiting.last());
            assert(waiting.reverse().skip(1) =~= waiting.drop_last().reverse());
            match self.cells.pop() {
                Some(cell) => {
                    assert(cell == waiting.last());
                    assert(cell.position().1 < usize::MAX);
                    self.take_header_cell(cell);
                },
                None => {},
            }
        }
        proof {
            let (reached, rest) = header_run(
                self.header_state(),
                self.context(),
                self.cells@.reverse(),
            );
            assert(self.cells.len() == 0 ==> self.cells@.reverse() =~= Seq::<Cell<Data>>::empty());
            assert(rest == self.cells@.reverse());
        }
        if let HeaderPhase::Done = self.header {
            return HeaderNext::Done;
        }
        if !self.closed {
            return HeaderNext::NeedCells;
        }
        let mut failure: Option<XlsxError> = None;
        core::mem::swap(&mut failure, &mut self.failure);
        match failure {
            Some(e) => HeaderNext::Failed(e),
            None => {
                self.end_header();
                HeaderNext::Done
            },
        }
    }
}

impl DataFrameIter {
    /// Takes the next cell into the batch, unless its row is to be skipped or the
    /// batch is full.
    fn take_cell(&mut self, cell: Cell<Data>) -> (taken: Result<Taken, XlsxError>)
        requires
            old(self).wf(),
            old(self).cell_cache is None,
            old(self).header == HeaderPhase::Done,
            cell.position().1 < usize::MAX,
        ensures
            final(self).wf(),
            final(self).cell_cache is None,
            final(self).cells == old(self).cells,
            final(self).skips() == old(self).skips(),
            final(self).batch_size() == old(self).batch_size(),
            final(self).texts() == old(self).texts(),
            final(self).headers() == old(self).headers(),
            final(self).header == old(self).header,
            final(self).has_header == old(self).has_header,
            final(self).dimensions == old(self).dimensions,
            final(self).len == old(self).len,
            final(self).closed == old(self).closed,
            final(self).failure == old(self).failure,
            ({
                let (run, step) = run_step(
                    old(self).run(),
                    old(self).skips(),
                    old(self).batch_size(),
                    cell.position().0,
                );
                &&& final(self).run() == run
                &&& match taken {
                    Ok(Taken::Skipped) => step is Skipped
                        && final(self).state() == old(self).state(),
                    Ok(Taken::Full(c)) => step is Full && c == cell
                        && final(self).state() == old(self).state(),
                    Ok(Taken::Taken) => step matches StepItem::Taken(row) && data_fits(cell.value())
                        && final(self).state() == cols_after(
                        old(self).state(),
                        cell.position().1 as int,
                        cell.value(),
                        row,
                        old(self).texts(),
                    ),
                    Err(e) => step is Taken && !data_fits(cell.value()) && e@ == failure(
                        ErrorKind::TooLong,
                        "Text exceeds 4 GiB"@,
                    ) && final(self).state() == old(self).state(),
                }
            }),
    {
        let row: u32 = cell.get_position().0;
        if self.batch_start_row.is_none() {
            let skipped = self.ask_row(row);
            self.current_row_skipped = skipped;
            if skipped {
                return Ok(Taken::Skipped);
            }
            self.batch_start_row = Some(row);
            self.current_row_count = 1;
            self.last_processed_row = Some(row);
        } else {
            let same_row = match self.last_processed_row {
                Some(last) => last == row,
                None => false,
            };
            if !same_row {
                let skipped = self.ask_row(row);
                self.current_row_skipped = skipped;
                if skipped {
                    return Ok(Taken::Skipped);
                }
                if self.current_row_count >= self.cols.batch_size {
                    return Ok(Taken::Full(cell));
                }
                self.current_row_count += 1;
                self.last_processed_row = Some(row);
            } else if self.current_row_skipped {
                return Ok(Taken::Skipped);
            }
        }
        let batch_row: usize = self.current_row_count - 1;
        match self.cols.push_cell(cell, batch_row) {
            Ok(_) => Ok(Taken::Taken),
            Err(e) => Err(e),
        }
    }

    /// Hands out the columns of the batch and starts a new one; `None` where the
    /// batch has no entry.
    fn finish_batch(&mut self) -> (next: Option<Next>)
        requires
            old(self).wf(),
        ensures
            final(self).wf(),
            final(self).cells == old(self).cells,
            final(self).cell_cache == old(self).cell_cache,
            final(self).skips() == old(self).skips(),
            final(self).batch_size() == old(self).batch_size(),
            final(self).texts() == old(self).texts(),
            final(self).headers() == old(self).headers(),
            final(self).header == old(self).header,
            final(self).has_header == old(self).has_header,
            final(self).dimensions == old(self).dimensions,
            final(self).len == old(self).len,
            final(self).closed == old(self).closed,
            final(self).failure == old(self).failure,
            match next {
                Some(n) => any_entry(old(self).state()) && is_next_frame(
                    n,
                    old(self).state(),
                    old(self).headers(),
                ) && final(self).run() == after_batch(old(self).run()) && final(self).state()
                    == (ColsState { cols: Seq::empty(), ..old(self).state() }),
                None => !any_entry(old(self).state()) && *final(self) == *old(self),
            },
    {
        if !self.cols.has_data() {
            return None;
        }
        let made = self.cols.into_dataframe();
        self.batch_start_row = None;
        self.current_row_count = 0;
        self.last_processed_row = None;
        assert(self.state().cols =~= Seq::<ColState>::empty());
        match made {
            Ok(frame) => Some(Next::Frame(frame)),
            Err(e) => Some(Next::Failed(e)),
        }
    }

    /// Hands out the next batch. Where the cells that are supplied do not fill it,
    /// it asks for more; after the last cell it hands out what there is. Once all cells
    /// are supplied, these are the frames of the sheet, one after the other.
    pub fn next(&mut self) -> (next: Next)
        requires
            old(self).wf(),
            old(self).header_state().phase == HeaderPhase::Done,
        ensures
            next_call(*old(self), next, *final(self)),
    {
        let next = self.fill_batch();
        proof {
            let part = split(
                old(self).run(),
                old(self).skips(),
                old(self).batch_size(),
                old(self).upcoming(),
            );
            let cols = cols_taken(old(self).state(), part.taken, old(self).texts());
            lemma_full_batch_has_rows(
                old(self).run(),
                old(self).skips(),
                old(self).batch_size(),
                old(self).upcoming(),
            );
            if part.end is Full && any_entry(cols) {
                assert(handed_out(cols) == self.state());
                assert(old(self).frames() == seq![cols] + self.frames());
                assert(old(self).frames().skip(1) =~= self.frames());
            } else if part.end is Exhausted && old(self).is_closed() && part.run.started
                && any_entry(cols) && old(self).pending_failure() is None {
                assert(part.rest =~= Seq::<Cell<Data>>::empty());
                assert(old(self).frames() == seq![cols]);
                assert(self.frames() =~= Seq::<ColsState>::empty());
                assert(old(self).frames().skip(1) =~= self.frames());
            }
        }
        next
    }

    /// Fills a batch from the cells that are supplied.
    fn fill_batch(&mut self) -> (next: Next)
        requires
            old(self).wf(),
            old(self).header_state().phase == HeaderPhase::Done,
        ensures
            final(self).wf(),
            final(self).header_state().phase == HeaderPhase::Done,
            final(self).skips() == old(self).skips(),
            final(self).batch_size() == old(self).batch_size(),
            final(self).texts() == old(self).texts(),
            final(self).context().has_header == old(self).context().has_header,
            final(self).context().end == old(self).context().end,
            final(self).headers() == old(self).headers(),
            final(self).is_closed() == old(self).is_closed(),
            old(self).pending_failure() is None ==> final(self).pending_failure() is None,
            next_step(*old(self), next, *final(self)),
    {
        let mut cached: Option<Cell<Data>> = None;
        core::mem::swap(&mut cached, &mut self.cell_cache);
        match cached {
            Some(cell) => {
                let ghost waiting = self.cells@;
                self.cells.push(cell);
                assert(self.cells@.reverse() =~= seq![cell] + waiting.reverse());
            },
            None => {},
        }
        let ghost cells = old(self).upcoming();
        assert(self.cells@.reverse() == cells);
        let ghost mut done: Seq<(Cell<Data>, int)> = Seq::empty();
        proof {
            let part = split(self.run(), self.skips(), self.batch_size(), cells);
            assert(done + part.taken =~= part.taken);
        }
        while self.cells.len() > 0
            invariant
                self.wf(),
                self.cell_cache is None,
                self.header == HeaderPhase::Done,
                self.skips() == old(self).skips(),
                self.batch_size() == old(self).batch_size(),
                self.texts() == old(self).texts(),
                self.headers() == old(self).headers(),
                self.has_header == old(self).has_header,
                self.dimensions == old(self).dimensions,
                self.len == old(self).len,
                self.closed == old(self).closed,
                self.failure == old(self).failure,
                cells == old(self).upcoming(),
                self.state() == cols_taken(old(self).state(), done, old(self).texts()),
                ({
                    let whole = split(
                        old(self).run(),
                        old(self).skips(),
                        old(self).batch_size(),
                        cells,
                    );
                    let part = split(
                        self.run(),
                        self.skips(),
                        self.batch_size(),
                        self.cells@.reverse(),
                    );
                    &&& whole.taken == done + part.taken
                    &&& whole.run == part.run
                    &&& whole.rest == part.rest
                    &&& whole.end == part.end
                }),
            decreases self.cells.len(),
        {
            let ghost waiting = self.cells@;
            assert(waiting.reverse()[0] == waiting.last());
            assert(waiting.reverse().skip(1) =~= waiting.drop_last().reverse());
            if let Some(cell) = self.cells.pop() {
                assert(cell == waiting.last());
                assert(cell.position().1 < usize::MAX);
                let ghost before = self.run();
                match self.take_cell(cell) {
                    Err(e) => {
                        assert(done + Seq::<(Cell<Data>, int)>::empty() =~= done);
                        return Next::Failed(e);
                    },
                    Ok(Taken::Skipped) => {},
                    Ok(Taken::Taken) => {
                        proof {
                            let row = run_step(
                                before,
                                self.skips(),
                                self.batch_size(),
                                cell.position().0,
                            ).1->Taken_0;
                            let part = split(
                                self.run(),
                                self.skips(),
                                self.batch_size(),
                                self.cells@.reverse(),
                            );
                            let longer = done.push((cell, row));
                            assert(longer.drop_last() =~= done);
                            assert(done + (seq![(cell, row)] + part.taken) =~= longer
                                + part.taken);
                            done = longer;
                        }
                    },
                    Ok(Taken::Full(cell)) => {
                        assert(done + Seq::<(Cell<Data>, int)>::empty() =~= done);
                        self.len = self.len.saturating_sub(1);
                        let finished = self.finish_batch();
                        match finished {
                            Some(next) => {
                                self.cell_cache = Some(cell);
                                assert(self.upcoming() =~= waiting.reverse());
                                return next;
                            },
                            None => {
                                self.cells.push(cell);
                                assert(self.cells@ =~= waiting);
                                return Next::End;
                            },
                        }
                    },
                }
            }
        }
        assert(self.cells@.reverse() =~= Seq::<Cell<Data>>::empty());
        assert(done + Seq::<(Cell<Data>, int)>::empty() =~= done);
        if !self.closed {
            return Next::NeedCells;
        }
        let mut failure: Option<XlsxError> = None;
        core::mem::swap(&mut failure, &mut self.failure);
        match failure {
            Some(e) => {
                return Next::Failed(e);
            },
            None => {},
        }
        if self.batch_start_row.is_none() || !self.cols.has_data() {
            return Next::End;
        }
        self.len = self.len.saturating_sub(1);
        match self.finish_batch() {
            Some(next) => next,
            None => Next::End,
        }
    }
}

/// The columns of a sheet whose used range ends in column `last`, all of them empty.
pub open spec fn fresh_cols(last: u32) -> ColsState {
    ColsState {
        cols: Seq::new((last + 1) as nat, |i: int| empty_col()),
        dtypes: Seq::new((last + 1) as nat, |i: int| None::<DataType>),
    }
}

/// No header read yet.
pub open spec fn no_header() -> HeaderState {
    HeaderState { headers: Seq::empty(), phase: HeaderPhase::Start, cache: None, len: 0 }
}

/// A batch without rows.
pub open spec fn no_rows() -> RunState {
    RunState { floor: 0, started: false, count: 0, last: None, skipped: false }
}

/// Whether batches are those of a sheet that is about to be read: nothing is supplied
/// yet.
pub open spec fn about_to_read(
    iter: DataFrameIter,
    batch_size: Option<usize>,
    range: ((int, int), (int, int)),
    texts: Seq<Seq<char>>,
    has_header: bool,
    skip_rows: Seq<u32>,
) -> bool {
    &&& iter.wf()
    &&& iter.context().end.0 == range.1.0
    &&& iter.context().end.1 == range.1.1
    &&& iter.context().columns == range.1.1 + 1
    &&& iter.context().has_header == has_header
    &&& iter.batch_size() == rows_per_batch(batch_size, iter.context().end.0, has_header)
    &&& iter.state() == fresh_cols(iter.context().end.1)
    &&& iter.texts() == Some(texts)
    &&& iter.header_state() == no_header()
    &&& iter.run() == no_rows()
    &&& iter.upcoming() == Seq::<Cell<Data>>::empty()
    &&& !iter.is_closed()
    &&& iter.pending_failure() is None
    &&& iter.skips().to_multiset() == skip_rows.to_multiset()
}

/// Optional rows, as contracts speak of them.
pub open spec fn rows_listed(rows: Option<Vec<u32>>) -> Seq<u32> {
    match rows {
        Some(listed) => listed@,
        None => Seq::empty(),
    }
}

impl DataFrameIter {
    /// Opens a sheet of a workbook that is open already: the reader of its cells, and
    /// the batches that the cells are to be supplied to.
    pub fn from_workbook(
        batch_size: Option<usize>,
        workbook: &mut XlsxWorkbook,
        sheet_name: Option<&str>,
        sheet_idx: Option<usize>,
        has_header: bool,
        skip_rows: Option<Vec<u32>>,
    ) -> (opened: Result<(XlsxStreamReader, DataFrameIter), XlsxError>)
        requires
            old(workbook).wf(),
        ensures
            final(workbook).wf(),
            final(workbook).archive() == old(workbook).archive(),
            final(workbook).entries() == old(workbook).entries(),
            final(workbook).fast() == old(workbook).fast(),
            loaded_for(*old(workbook), *final(workbook), name_text(sheet_name), sheet_idx),
            match opened {
                Ok((reader, iter)) => reader.wf() && final(workbook).loaded_strings() is Some
                    && final(workbook).loaded_styles() is Some && crate::xlsx_stream_lm::opened(
                    old(workbook).archive(),
                    old(workbook).entries(),
                    old(workbook).fast(),
                    name_text(sheet_name),
                    sheet_idx,
                    reader,
                ) && about_to_read(
                    iter,
                    batch_size,
                    reader.state().dimensions,
                    reader.texts(),
                    has_header,
                    rows_listed(skip_rows),
                ),
                Err(e) => not_opened(
                    old(workbook).archive(),
                    old(workbook).entries(),
                    old(workbook).fast(),
                    name_text(sheet_name),
                    sheet_idx,
                    e@,
                ),
            },
    {
        match XlsxStreamReader::from_workbook(workbook, sheet_name, sheet_idx) {
            Err(e) => Err(e),
            Ok(reader) => {
                let iter = DataFrameIter::new(
                    batch_size,
                    reader.dimensions(),
                    reader.strings().clone(),
                    has_header,
                    skip_rows,
                );
                Ok((reader, iter))
            },
        }
    }
}

impl DataFrameIter {
    /// Turns to another sheet of the workbook: everything read so far is forgotten, and
    /// the batches are those of a sheet that is about to be read. Where the sheet
    /// cannot be opened, the batches go on as they were.
    pub fn select_sheet(
        &mut self,
        workbook: &mut XlsxWorkbook,
        sheet_name: Option<&str>,
        sheet_idx: Option<usize>,
    ) -> (selected: Result<XlsxStreamReader, XlsxError>)
        requires
            old(self).wf(),
            old(workbook).wf(),
        ensures
            final(self).wf(),
            final(workbook).wf(),
            final(workbook).archive() == old(workbook).archive(),
            final(workbook).entries() == old(workbook).entries(),
            final(workbook).fast() == old(workbook).fast(),
            loaded_for(*old(workbook), *final(workbook), name_text(sheet_name), sheet_idx),
            match selected {
                Ok(reader) => reader.wf() && crate::xlsx_stream_lm::opened(
                    old(workbook).archive(),
                    old(workbook).entries(),
                    old(workbook).fast(),
                    name_text(sheet_name),
                    sheet_idx,
                    reader,
                ) && about_to_read(
                    *final(self),
                    Some(old(self).batch_size() as usize),
                    reader.state().dimensions,
                    reader.texts(),
                    old(self).context().has_header,
                    old(self).skips(),
                ),
                Err(e) => *final(self) == *old(self) && not_opened(
                    old(workbook).archive(),
                    old(workbook).entries(),
                    old(workbook).fast(),
                    name_text(sheet_name),
                    sheet_idx,
                    e@,
                ),
            },
    {
        match XlsxStreamReader::from_workbook(workbook, sheet_name, sheet_idx) {
            Err(e) => Err(e),
            Ok(reader) => {
                self.turn_to(reader.dimensions(), reader.strings().clone());
                Ok(reader)
            },
        }
    }
}

impl DataFrameIter {
    /// Turns to another sheet of the workbook, given by the bytes of its archive, in fast
    /// mode: everything read so far is forgotten, and the batches are those of a sheet
    /// that is about to be read. Where the sheet cannot be opened, the batches go on as
    /// they were.
    pub fn select_sheet_fast(
        &mut self,
        archive: Vec<u8>,
        sheet_name: Option<&str>,
        sheet_idx: Option<usize>,
    ) -> (selected: Result<(SheetFastReader, SheetTasks), XlsxError>)
        requires
            old(self).wf(),
        ensures
            final(self).wf(),
            match selected {
                Ok((reader, tasks)) => fast_sheet(
                    archive@,
                    name_text(sheet_name),
                    sheet_idx,
                ) == Ok::<Seq<u8>, Failure>(tasks.xml@) && reader.wf() && reader.next() == 0
                    && reader.total() == cell_ranges(tasks.xml@, 0).len() && reader.held()
                    == Map::<usize, Cell<Data>>::empty() && workbook_strings(archive@, true)
                    == Ok::<Seq<Seq<char>>, Failure>(reader.texts()) && reader.range()
                    == fast_range(tasks.xml@) && sheet_chunks(tasks.xml@, tasks.chunks@)
                    && about_to_read(
                    *final(self),
                    Some(old(self).batch_size() as usize),
                    reader.range(),
                    reader.texts(),
                    old(self).context().has_header,
                    old(self).skips(),
                ),
                Err(e) => *final(self) == *old(self) && fast_sheet(
                    archive@,
                    name_text(sheet_name),
                    sheet_idx,
                ) == Err::<Seq<u8>, Failure>(e@),
            },
    {
        match SheetFastReader::new(archive, sheet_name, sheet_idx) {
            Err(e) => Err(e),
            Ok((reader, tasks)) => {
                self.turn_to(reader.dimensions(), reader.strings().clone());
                Ok((reader, tasks))
            },
        }
    }
}

/// A sheet that was turned to is read as one that was just opened: two iterators that
/// are about to read the same sheet, with the same rows per batch, header and rows to
/// be skipped, in whatever order these are listed, agree in all that the batches
/// depend on, and so hand out the same frames.
pub proof fn law_selected_sheet_is_fresh(
    a: DataFrameIter,
    b: DataFrameIter,
    batch_size: Option<usize>,
    range: ((int, int), (int, int)),
    texts: Seq<Seq<char>>,
    has_header: bool,
    skips_a: Seq<u32>,
    skips_b: Seq<u32>,
)
    requires
        about_to_read(a, batch_size, range, texts, has_header, skips_a),
        about_to_read(b, batch_size, range, texts, has_header, skips_b),
        skips_a.to_multiset() == skips_b.to_multiset(),
    ensures
        a.context() == b.context(),
        a.header_state() == b.header_state(),
        a.run() == b.run(),
        a.state() == b.state(),
        a.upcoming() == b.upcoming(),
        a.is_closed() == b.is_closed(),
        a.pending_failure() == b.pending_failure(),
        a.frames() == b.frames(),
{
    let leq = |x: u32, y: u32| x <= y;
    vstd::seq_lib::lemma_sorted_unique(a.skips(), b.skips(), leq);
}

/// Opens a sheet of a workbook, given by the bytes of its archive, in low-memory
/// mode: the reader of its cells, and the batches that the cells are to be supplied
/// to.
pub fn df_iter(
    batch_size: Option<usize>,
    archive: Vec<u8>,
    sheet_name: Option<&str>,
    sheet_idx: Option<usize>,
    has_header: bool,
    skip_rows: Option<Vec<u32>>,
) -> (opened: Result<(XlsxStreamReader, DataFrameIter), XlsxError>)
    ensures
        match opened {
            Ok((reader, iter)) => reader.wf() && (workbook_sheets(archive@) matches Ok(sheets)
                && crate::xlsx_stream_lm::opened(
                archive@,
                sheets,
                false,
                name_text(sheet_name),
                sheet_idx,
                reader,
            )) && about_to_read(
                iter,
                batch_size,
                reader.state().dimensions,
                reader.texts(),
                has_header,
                rows_listed(skip_rows),
            ),
            Err(e) => match workbook_sheets(archive@) {
                Err(f) => e@ == f,
                Ok(sheets) => not_opened(
                    archive@,
                    sheets,
                    false,
                    name_text(sheet_name),
                    sheet_idx,
                    e@,
                ),
            },
        },
{
    match XlsxStreamReader::new(archive, sheet_name, sheet_idx) {
        Err(e) => Err(e),
        Ok(reader) => {
            let iter = DataFrameIter::new(
                batch_size,
                reader.dimensions(),
                reader.strings().clone(),
                has_header,
                skip_rows,
            );
            Ok((reader, iter))
        },
    }
}

/// Opens a sheet of a workbook, given by the bytes of its archive, in fast mode: the
/// reader that puts its cells in order, the work it has to wait for, and the batches
/// that the cells are to be supplied to.
pub fn df_iter_fast(
    batch_size: Option<usize>,
    archive: Vec<u8>,
    sheet_name: Option<&str>,
    sheet_idx: Option<usize>,
    has_header: bool,
    skip_rows: Option<Vec<u32>>,
) -> (opened: Result<(SheetFastReader, SheetTasks, DataFrameIter), XlsxError>)
    ensures
        match opened {
            Ok((reader, tasks, iter)) => fast_sheet(
                archive@,
                name_text(sheet_name),
                sheet_idx,
            ) == Ok::<Seq<u8>, Failure>(tasks.xml@) && reader.wf() && reader.next() == 0
                && reader.total() == cell_ranges(tasks.xml@, 0).len() && reader.held() == Map::<
                usize,
                Cell<Data>,
            >::empty() && workbook_strings(archive@, true) == Ok::<Seq<Seq<char>>, Failure>(
                reader.texts(),
            ) && reader.range() == fast_range(tasks.xml@) && sheet_chunks(tasks.xml@, tasks.chunks@) && about_to_read(
                iter,
                batch_size,
                reader.range(),
                reader.texts(),
                has_header,
                rows_listed(skip_rows),
            ),
            Err(e) => fast_sheet(archive@, name_text(sheet_name), sheet_idx) == Err::<
                Seq<u8>,
                Failure,
            >(e@),
        },
{
    match SheetFastReader::new(archive, sheet_name, sheet_idx) {
        Err(e) => Err(e),
        Ok((reader, tasks)) => {
            let iter = DataFrameIter::new(
                batch_size,
                reader.dimensions(),
                reader.strings().clone(),
                has_header,
                skip_rows,
            );
            Ok((reader, tasks, iter))
        },
    }
}

/// The cells whose rows are not to be skipped.
pub open spec fn kept(cells: Seq<Cell<Data>>, skips: Seq<u32>) -> Seq<Cell<Data>>
    decreases cells.len(),
{
    if cells.len() == 0 {
        Seq::empty()
    } else if skips.contains(cells[0].position().0) {
        kept(cells.skip(1), skips)
    } else {
        seq![cells[0]] + kept(cells.skip(1), skips)
    }
}

/// Whether cells come row by row, none before row `from`, and none is too long.
pub open spec fn row_by_row(cells: Seq<Cell<Data>>, from: int) -> bool {
    &&& forall|i: int|
        0 <= i < cells.len() ==> from <= (#[trigger] cells[i]).position().0 && data_fits(
            cells[i].value(),
        )
    &&& forall|i: int, j: int|
        0 <= i <= j < cells.len() ==> (#[trigger] cells[i]).position().0 <= (
        #[trigger] cells[j]).position().0
}

/// Whether the progress of a batch fits cells that come row by row.
pub open spec fn run_fits(run: RunState, skips: Seq<u32>) -> bool {
    &&& run.started ==> run.count >= 1 && (run.last matches Some(last) && last <= run.floor
        && !skips.contains(last) && (run.skipped ==> last < run.floor))
    &&& !run.started ==> run.count == 0 && run.last is None
}

/// The cells of a batch, without their rows in it.
pub open spec fn cells_of(taken: Seq<(Cell<Data>, int)>) -> Seq<Cell<Data>> {
    taken.map_values(|t: (Cell<Data>, int)| t.0)
}

/// A batch leaves out exactly the cells of the rows to be skipped: its cells, and
/// the cells kept of the rest, are the cells kept of all. A batch that is full has
/// as many rows as it should, and so has none more.
pub proof fn law_batch_takes_kept_cells(
    run: RunState,
    skips: Seq<u32>,
    batch_size: int,
    cells: Seq<Cell<Data>>,
)
    requires
        run_fits(run, skips),
        row_by_row(cells, run.floor),
        batch_size >= 1,
        run.count <= batch_size,
    ensures
        ({
            let part = split(run, skips, batch_size, cells);
            &&& cells_of(part.taken) + kept(part.rest, skips) == kept(cells, skips)
            &&& !(part.end is TooLong)
            &&& run_fits(part.run, skips)
            &&& part.run.count <= batch_size
            &&& part.end is Full ==> part.run.count == batch_size
            &&& part.end is Exhausted ==> part.rest.len() == 0
            &&& part.rest.len() <= cells.len()
            &&& row_by_row(part.rest, part.run.floor)
            &&& !run.started && part.taken.len() == 0 ==> part.end is Exhausted
            &&& part.end is Full ==> part.run.started
        }),
    decreases cells.len(),
{
    let part = split(run, skips, batch_size, cells);
    if cells.len() == 0 {
        assert(cells_of(part.taken) + kept(part.rest, skips) =~= kept(cells, skips));
    } else {
        let cell = cells[0];
        let row = cell.position().0;
        let (after, step) = run_step(run, skips, batch_size, row);
        let later = cells.skip(1);
        assert forall|i: int| 0 <= i < later.len() implies after.floor <= (
        #[trigger] later[i]).position().0 && data_fits(later[i].value()) by {
            assert(later[i] == cells[i + 1]);
            assert(cells[0].position().0 <= cells[i + 1].position().0);
        }
        assert forall|i: int, j: int| 0 <= i <= j < later.len() implies (
        #[trigger] later[i]).position().0 <= (#[trigger] later[j]).position().0 by {
            assert(later[i] == cells[i + 1]);
            assert(later[j] == cells[j + 1]);
        }
        match step {
            StepItem::Skipped => {
                law_batch_takes_kept_cells(after, skips, batch_size, later);
            },
            StepItem::Full => {
                assert(cells_of(part.taken) + kept(part.rest, skips) =~= kept(cells, skips));
                assert forall|i: int| 0 <= i < cells.len() implies after.floor <= (
                #[trigger] cells[i]).position().0 by {
                    assert(cells[0].position().0 <= cells[i].position().0);
                }
            },
            StepItem::Taken(k) => {
                law_batch_takes_kept_cells(after, skips, batch_size, later);
                let rest = split(after, skips, batch_size, later);
                assert(cells_of(part.taken) =~= seq![cell] + cells_of(rest.taken));
                assert(cells_of(part.taken) + kept(part.rest, skips) =~= seq![cell] + (cells_of(
                    rest.taken,
                ) + kept(rest.rest, skips)));
            },
        }
    }
}

/// Whether the cells of a batch are numbered by their rows: one that lies in the
/// row of the cell before it has its number, any other the next one.
pub open spec fn numbered_by_row(
    taken: Seq<(Cell<Data>, int)>,
    last: Option<u32>,
    count: int,
) -> bool {
    forall|i: int|
        0 <= i < taken.len() ==> (#[trigger] taken[i]).1 == (if i == 0 {
            if last == Some(taken[0].0.position().0) {
                count - 1
            } else {
                count
            }
        } else if taken[i].0.position().0 == taken[i - 1].0.position().0 {
            taken[i - 1].1
        } else {
            taken[i - 1].1 + 1
        })
}

/// The rows of a batch are numbered from zero in the order of the sheet, and only
/// rows that have a cell count.
pub proof fn law_rows_are_numbered(
    run: RunState,
    skips: Seq<u32>,
    batch_size: int,
    cells: Seq<Cell<Data>>,
)
    requires
        run_fits(run, skips),
        row_by_row(cells, run.floor),
        batch_size >= 1,
        run.count <= batch_size,
    ensures
        numbered_by_row(split(run, skips, batch_size, cells).taken, run.last, run.count),
    decreases cells.len(),
{
    if cells.len() > 0 {
        let cell = cells[0];
        let row = cell.position().0;
        let (after, step) = run_step(run, skips, batch_size, row);
        let later = cells.skip(1);
        law_batch_takes_kept_cells(run, skips, batch_size, cells);
        assert forall|i: int| 0 <= i < later.len() implies after.floor <= (
        #[trigger] later[i]).position().0 && data_fits(later[i].value()) by {
            assert(later[i] == cells[i + 1]);
            assert(cells[0].position().0 <= cells[i + 1].position().0);
        }
        assert forall|i: int, j: int| 0 <= i <= j < later.len() implies (
        #[trigger] later[i]).position().0 <= (#[trigger] later[j]).position().0 by {
            assert(later[i] == cells[i + 1]);
            assert(later[j] == cells[j + 1]);
        }
        match step {
            StepItem::Skipped => {
                law_rows_are_numbered(after, skips, batch_size, later);
            },
            StepItem::Full => {},
            StepItem::Taken(k) => {
                law_rows_are_numbered(after, skips, batch_size, later);
                let rest = split(after, skips, batch_size, later).taken;
                let taken = split(run, skips, batch_size, cells).taken;
                assert(taken == seq![(cell, k)] + rest);
                assert forall|i: int| 0 <= i < taken.len() implies (#[trigger] taken[i]).1 == (if i
                    == 0 {
                    if run.last == Some(taken[0].0.position().0) {
                        run.count - 1
                    } else {
                        run.count
                    }
                } else if taken[i].0.position().0 == taken[i - 1].0.position().0 {
                    taken[i - 1].1
                } else {
                    taken[i - 1].1 + 1
                }) by {
                    if i > 0 {
                        assert(taken[i] == rest[i - 1]);
                        if i > 1 {
                            assert(taken[i - 1] == rest[i - 2]);
                        }
                    }
                }
            },
        }
    }
}

/// The cells of all batches, one batch after the other.
pub open spec fn all_batches(
    run: RunState,
    skips: Seq<u32>,
    batch_size: int,
    cells: Seq<Cell<Data>>,
) -> Seq<Cell<Data>>
    decreases cells.len(),
{
    let part = split(run, skips, batch_size, cells);
    if part.end is Full && part.rest.len() < cells.len() {
        cells_of(part.taken) + all_batches(after_batch(part.run), skips, batch_size, part.rest)
    } else {
        cells_of(part.taken)
    }
}

/// A batch that is full has rows; what is left after it is no more than before, and
/// less where it starts anew.
pub proof fn lemma_full_batch_has_rows(
    run: RunState,
    skips: Seq<u32>,
    batch_size: int,
    cells: Seq<Cell<Data>>,
)
    ensures
        split(run, skips, batch_size, cells).end is Full ==> split(
            run,
            skips,
            batch_size,
            cells,
        ).run.started,
        split(run, skips, batch_size, cells).rest.len() <= cells.len(),
        split(run, skips, batch_size, cells).end is Full && !run.started ==> split(
            run,
            skips,
            batch_size,
            cells,
        ).rest.len() < cells.len(),
        split(run, skips, batch_size, cells).end is Exhausted ==> split(
            run,
            skips,
            batch_size,
            cells,
        ).rest.len() == 0,
    decreases cells.len(),
{
    lemma_rest_is_shorter(run, skips, batch_size, cells);
    if !run.started {
        lemma_full_batch_is_not_empty(run, skips, batch_size, cells);
    }
    if cells.len() > 0 {
        let (after, step) = run_step(run, skips, batch_size, cells[0].position().0);
        lemma_full_batch_has_rows(after, skips, batch_size, cells.skip(1));
    }
}

/// A batch that starts anew and fills up has taken a cell.
pub proof fn lemma_full_batch_is_not_empty(
    run: RunState,
    skips: Seq<u32>,
    batch_size: int,
    cells: Seq<Cell<Data>>,
)
    requires
        !run.started,
    ensures
        split(run, skips, batch_size, cells).end is Full ==> split(
            run,
            skips,
            batch_size,
            cells,
        ).rest.len() < cells.len(),
    decreases cells.len(),
{
    if cells.len() > 0 {
        let (after, step) = run_step(run, skips, batch_size, cells[0].position().0);
        match step {
            StepItem::Skipped => {
                lemma_full_batch_is_not_empty(after, skips, batch_size, cells.skip(1));
            },
            StepItem::Full => {},
            StepItem::Taken(_) => {
                lemma_rest_is_shorter(after, skips, batch_size, cells.skip(1));
            },
        }
    }
}

proof fn lemma_rest_is_shorter(
    run: RunState,
    skips: Seq<u32>,
    batch_size: int,
    cells: Seq<Cell<Data>>,
)
    ensures
        split(run, skips, batch_size, cells).rest.len() <= cells.len(),
    decreases cells.len(),
{
    if cells.len() > 0 {
        let (after, step) = run_step(run, skips, batch_size, cells[0].position().0);
        lemma_rest_is_shorter(after, skips, batch_size, cells.skip(1));
    }
}

/// The batches together hold every cell of the data once and in order, except those
/// of the rows to be skipped, whatever the rows per batch.
pub proof fn law_batches_hold_all_kept_cells(
    run: RunState,
    skips: Seq<u32>,
    batch_size: int,
    cells: Seq<Cell<Data>>,
)
    requires
        run_fits(run, skips),
        !run.started,
        row_by_row(cells, run.floor),
        batch_size >= 1,
    ensures
        all_batches(run, skips, batch_size, cells) == kept(cells, skips),
    decreases cells.len(),
{
    law_batch_takes_kept_cells(run, skips, batch_size, cells);
    lemma_full_batch_is_not_empty(run, skips, batch_size, cells);
    let part = split(run, skips, batch_size, cells);
    if part.end is Full {
        law_batches_hold_all_kept_cells(after_batch(part.run), skips, batch_size, part.rest);
    } else {
        assert(cells_of(part.taken) + kept(part.rest, skips) =~= cells_of(part.taken));
    }
}

/// The number of rows that cells lie in, where they come row by row after row `last`.
pub open spec fn rows_in(cells: Seq<Cell<Data>>, last: Option<u32>) -> int
    decreases cells.len(),
{
    if cells.len() == 0 {
        0
    } else {
        let row = cells[0].position().0;
        (if last == Some(row) {
            0int
        } else {
            1int
        }) + rows_in(cells.skip(1), Some(row))
    }
}

proof fn lemma_rows_in_bound(cells: Seq<Cell<Data>>, last: Option<u32>)
    ensures
        0 <= rows_in(cells, last),
        cells.len() > 0 && last != Some(cells[0].position().0) ==> rows_in(cells, last) >= 1
            && rows_in(cells, last) == rows_in(cells, None),
    decreases cells.len(),
{
    if cells.len() > 0 {
        lemma_rows_in_bound(cells.skip(1), Some(cells[0].position().0));
    }
}

/// The rows that are kept are those of a batch and those of the cells after it.
pub proof fn lemma_rows_of_batch(
    run: RunState,
    skips: Seq<u32>,
    batch_size: int,
    cells: Seq<Cell<Data>>,
)
    requires
        run_fits(run, skips),
        row_by_row(cells, run.floor),
        batch_size >= 1,
        run.count <= batch_size,
    ensures
        ({
            let part = split(run, skips, batch_size, cells);
            let rest = kept(part.rest, skips);
            &&& rows_in(kept(cells, skips), run.last) == part.run.count - run.count + rows_in(
                rest,
                part.run.last,
            )
            &&& part.end is Full ==> rest.len() > 0 && part.run.last != Some(rest[0].position().0)
            &&& !run.started && part.taken.len() == 0 ==> !part.run.started
            &&& part.taken.len() > 0 ==> part.run.started
        }),
    decreases cells.len(),
{
    let part = split(run, skips, batch_size, cells);
    if cells.len() > 0 {
        let cell = cells[0];
        let row = cell.position().0;
        let (after, step) = run_step(run, skips, batch_size, row);
        let later = cells.skip(1);
        assert forall|i: int| 0 <= i < later.len() implies after.floor <= (
        #[trigger] later[i]).position().0 && data_fits(later[i].value()) by {
            assert(later[i] == cells[i + 1]);
            assert(cells[0].position().0 <= cells[i + 1].position().0);
        }
        assert forall|i: int, j: int| 0 <= i <= j < later.len() implies (
        #[trigger] later[i]).position().0 <= (#[trigger] later[j]).position().0 by {
            assert(later[i] == cells[i + 1]);
            assert(later[j] == cells[j + 1]);
        }
        match step {
            StepItem::Skipped => {
                lemma_rows_of_batch(after, skips, batch_size, later);
            },
            StepItem::Full => {
                assert(kept(cells, skips)[0] == cell);
            },
            StepItem::Taken(_) => {
                lemma_rows_of_batch(after, skips, batch_size, later);
                lemma_started_stays(after, skips, batch_size, later);
                let all = kept(cells, skips);
                assert(all[0] == cell);
                assert(all.skip(1) =~= kept(later, skips));
            },
        }
    }
}

proof fn lemma_started_stays(
    run: RunState,
    skips: Seq<u32>,
    batch_size: int,
    cells: Seq<Cell<Data>>,
)
    requires
        run.started,
    ensures
        split(run, skips, batch_size, cells).run.started,
    decreases cells.len(),
{
    if cells.len() > 0 {
        let (after, step) = run_step(run, skips, batch_size, cells[0].position().0);
        lemma_started_stays(after, skips, batch_size, cells.skip(1));
    }
}

/// The number of batches that a run of cells makes.
pub open spec fn batch_total(
    run: RunState,
    skips: Seq<u32>,
    batch_size: int,
    cells: Seq<Cell<Data>>,
) -> int
    decreases cells.len(),
{
    let part = split(run, skips, batch_size, cells);
    if part.end is Full && part.rest.len() < cells.len() {
        1 + batch_total(after_batch(part.run), skips, batch_size, part.rest)
    } else if part.taken.len() > 0 {
        1
    } else {
        0
    }
}

/// Every batch but the last has as many rows as it should: the number of batches is
/// that of the rows that are kept, divided by the rows per batch and rounded up.
pub proof fn law_number_of_batches(
    run: RunState,
    skips: Seq<u32>,
    batch_size: int,
    cells: Seq<Cell<Data>>,
)
    requires
        run_fits(run, skips),
        !run.started,
        row_by_row(cells, run.floor),
        batch_size >= 1,
    ensures
        batch_total(run, skips, batch_size, cells) == (rows_in(kept(cells, skips), None)
            + batch_size - 1) / batch_size,
    decreases cells.len(),
{
    law_batch_takes_kept_cells(run, skips, batch_size, cells);
    lemma_rows_of_batch(run, skips, batch_size, cells);
    lemma_full_batch_is_not_empty(run, skips, batch_size, cells);
    let part = split(run, skips, batch_size, cells);
    let rows = rows_in(kept(cells, skips), None);
    let rest = kept(part.rest, skips);
    lemma_rows_in_bound(rest, part.run.last);
    if part.end is Full {
        law_number_of_batches(after_batch(part.run), skips, batch_size, part.rest);
        let left = rows_in(rest, None);
        assert(rows == batch_size + left);
        assert((rows + batch_size - 1) / batch_size == 1 + (left + batch_size - 1) / batch_size)
            by {
            vstd::arithmetic::div_mod::lemma_hoist_over_denominator(
                left + batch_size - 1,
                1,
                batch_size as nat,
            );
        }
    } else {
        assert(rest.len() == 0);
        assert(rows == part.run.count);
        if part.taken.len() == 0 {
            assert((batch_size - 1) / batch_size == 0) by {
                vstd::arithmetic::div_mod::lemma_basic_div(batch_size - 1, batch_size);
            }
        } else {
            assert((rows + batch_size - 1) / batch_size == 1) by {
                vstd::arithmetic::div_mod::lemma_hoist_over_denominator(
                    rows - 1,
                    1,
                    batch_size as nat,
                );
                vstd::arithmetic::div_mod::lemma_basic_div(rows - 1, batch_size);
            }
        }
    }
}

/// The rows of the used range that are left when the header and the rows to be
/// skipped are taken away.
pub open spec fn rows_left(context: HeaderContext, first: u32) -> int {
    let rows = (context.end.0 - first + (if context.has_header {
        0int
    } else {
        1int
    })) % 0x1_0000_0000;
    let skipped = count_between(
        context.skips,
        first_data_row(context, first),
        context.end.0,
    );
    if skipped > rows {
        0
    } else {
        rows - skipped
    }
}

/// Whether no row is listed twice.
pub open spec fn listed_once(skips: Seq<u32>) -> bool {
    forall|i: int, j: int| 0 <= i < j < skips.len() ==> skips[i] != skips[j]
}

/// Whether cells lie in the rows from `low` to `high`, and every one of these rows has
/// a cell.
pub open spec fn every_row_has_a_cell(cells: Seq<Cell<Data>>, low: int, high: u32) -> bool {
    &&& forall|i: int|
        0 <= i < cells.len() ==> low <= (#[trigger] cells[i]).position().0 <= high
    &&& forall|row: u32| low <= row <= high ==> #[trigger] has_row(cells, row)
}

/// Whether a row has a cell.
pub open spec fn has_row(cells: Seq<Cell<Data>>, row: u32) -> bool {
    exists|i: int| 0 <= i < cells.len() && (#[trigger] cells[i]).position().0 == row
}

/// The rows from `low` to `high` that are not listed.
spec fn unlisted(skips: Seq<u32>, low: int, high: int) -> int
    decreases high + 1 - low,
{
    if low > high {
        0
    } else {
        unlisted(skips, low + 1, high) + (if skips.contains(low as u32) {
            0int
        } else {
            1int
        })
    }
}

proof fn lemma_one_row_listed(skips: Seq<u32>, low: u32, high: u32)
    requires
        listed_once(skips),
        low <= high,
    ensures
        count_between(skips, low as int, high) == count_between(skips, low + 1, high) + (
        if skips.contains(low) {
            1int
        } else {
            0int
        }),
    decreases skips.len(),
{
    if skips.len() > 0 {
        let front = skips.drop_last();
        lemma_one_row_listed(front, low, high);
        if skips.last() == low {
            assert(skips[skips.len() - 1] == low);
            if front.contains(low) {
                let i = choose|i: int| 0 <= i < front.len() && front[i] == low;
                assert(skips[i] == skips[skips.len() - 1]);
            }
        } else if skips.contains(low) {
            let i = choose|i: int| 0 <= i < skips.len() && skips[i] == low;
            assert(front[i] == low);
        } else if front.contains(low) {
            let i = choose|i: int| 0 <= i < front.len() && front[i] == low;
            assert(skips[i] == low);
        }
    }
}

proof fn lemma_none_between(skips: Seq<u32>, low: int, high: u32)
    requires
        low > high,
    ensures
        count_between(skips, low, high) == 0,
    decreases skips.len(),
{
    if skips.len() > 0 {
        lemma_none_between(skips.drop_last(), low, high);
    }
}

proof fn lemma_unlisted(skips: Seq<u32>, low: int, high: u32)
    requires
        listed_once(skips),
        0 <= low <= high + 1,
    ensures
        unlisted(skips, low, high as int) == high + 1 - low - count_between(skips, low, high),
    decreases high + 1 - low,
{
    if low > high {
        lemma_none_between(skips, low, high);
    } else {
        lemma_unlisted(skips, low + 1, high);
        lemma_one_row_listed(skips, low as u32, high);
    }
}

/// The rows that are kept, where all rows from `low` on have a cell. Cells of the row
/// before `low` may come first, if that row is counted already or to be skipped.
proof fn lemma_rows_kept(
    cells: Seq<Cell<Data>>,
    skips: Seq<u32>,
    last: Option<u32>,
    low: int,
    high: u32,
)
    requires
        row_by_row(cells, 0),
        0 <= low <= high + 1,
        last matches Some(l) ==> l < low,
        forall|i: int|
            0 <= i < cells.len() ==> low - 1 <= (#[trigger] cells[i]).position().0 <= high && (
            cells[i].position().0 == low - 1 ==> last == Some(cells[i].position().0)
                || skips.contains(cells[i].position().0)),
        forall|row: u32| low <= row <= high ==> #[trigger] has_row(cells, row),
    ensures
        rows_in(kept(cells, skips), last) == unlisted(skips, low, high as int),
    decreases cells.len(),
{
    if cells.len() == 0 {
        if low <= high {
            assert(has_row(cells, low as u32));
        }
    } else {
        let row = cells[0].position().0;
        let later = cells.skip(1);
        assert forall|i: int, j: int| 0 <= i <= j < later.len() implies (
        #[trigger] later[i]).position().0 <= (#[trigger] later[j]).position().0 by {
            assert(later[i] == cells[i + 1] && later[j] == cells[j + 1]);
        }
        assert forall|i: int| 0 <= i < later.len() implies 0 <= (
        #[trigger] later[i]).position().0 && data_fits(later[i].value()) && row
            <= later[i].position().0 <= high by {
            assert(later[i] == cells[i + 1]);
            assert(cells[0].position().0 <= cells[i + 1].position().0);
        }
        assert(row <= low) by {
            if row > low {
                assert(has_row(cells, low as u32));
                let i = choose|i: int|
                    0 <= i < cells.len() && (#[trigger] cells[i]).position().0 == low;
                assert(cells[0].position().0 <= cells[i].position().0);
            }
        }
        let next_low = if row == low {
            low + 1
        } else {
            low
        };
        assert forall|r: u32| next_low <= r <= high implies #[trigger] has_row(later, r) by {
            assert(has_row(cells, r));
            let i = choose|i: int|
                0 <= i < cells.len() && (#[trigger] cells[i]).position().0 == r;
            assert(i > 0);
            assert(later[i - 1] == cells[i]);
        }
        let skip = skips.contains(row);
        let next_last = if skip {
            last
        } else {
            Some(row)
        };
        assert forall|i: int| 0 <= i < later.len() implies next_low - 1 <= (
        #[trigger] later[i]).position().0 <= high && (later[i].position().0 == next_low - 1
            ==> next_last == Some(later[i].position().0) || skips.contains(
            later[i].position().0,
        )) by {
            assert(later[i] == cells[i + 1]);
        }
        lemma_rows_kept(later, skips, next_last, next_low, high);
        if !skip {
            let all = kept(cells, skips);
            assert(all[0] == cells[0]);
            assert(all.skip(1) =~= kept(later, skips));
        }
    }
}

/// The first row of the data of a sheet whose first cell lies in row `first`.
pub open spec fn first_data_row(context: HeaderContext, first: u32) -> int {
    if context.has_header {
        first + 1
    } else {
        first as int
    }
}

/// The number of batches that is told in advance is the number of batches that come,
/// where the data has a cell in every row of the used range, and no row to be skipped
/// is listed twice.
pub proof fn law_batches_come_as_told(
    context: HeaderContext,
    first: u32,
    run: RunState,
    cells: Seq<Cell<Data>>,
)
    requires
        run_fits(run, context.skips),
        !run.started,
        row_by_row(cells, run.floor),
        0 <= run.floor,
        context.batch_size >= 1,
        listed_once(context.skips),
        first <= context.end.0 < u32::MAX,
        every_row_has_a_cell(cells, first_data_row(context, first), context.end.0),
        rows_left(context, first) + context.batch_size - 1 <= usize::MAX,
    ensures
        batch_count(context, first) == batch_total(run, context.skips, context.batch_size, cells),
{
    let low = first_data_row(context, first);
    law_number_of_batches(run, context.skips, context.batch_size, cells);
    assert(row_by_row(cells, 0));
    lemma_rows_kept(cells, context.skips, None, low, context.end.0);
    lemma_unlisted(context.skips, low, context.end.0);
    lemma_rows_in_bound(kept(cells, context.skips), None);
}

/// Where data follows the header, every column of the used range has a name.
pub proof fn law_header_names_the_used_range(
    state: HeaderState,
    context: HeaderContext,
    cell: Cell<Data>,
)
    requires
        state.phase matches HeaderPhase::Row(first) && cell.position().0 != first,
    ensures
        header_step(state, context, cell).headers.len() > context.end.1,
        header_step(state, context, cell).phase == HeaderPhase::Done,
{
}

/// The cells that are left for the data once the header is read.
pub open spec fn data_cells(reached: HeaderState, rest: Seq<Cell<Data>>) -> Seq<Cell<Data>> {
    match reached.cache {
        Some(cell) => seq![cell] + rest,
        None => rest,
    }
}

/// The header takes the cells of the first row and no other: without a header, all
/// cells are data; with one, the data is what comes after the first row. The number of
/// batches is counted from the first row.
pub proof fn law_header_takes_the_first_row(context: HeaderContext, cells: Seq<Cell<Data>>)
    requires
        row_by_row(cells, 0),
        cells.len() > 0,
    ensures
        ({
            let (reached, rest) = header_run(no_header(), context, cells);
            let data = data_cells(reached, rest);
            let taken = cells.len() - data.len();
            let first = cells[0].position().0;
            &&& 0 <= taken
            &&& data == cells.skip(taken)
            &&& !context.has_header ==> taken == 0
            &&& context.has_header ==> (forall|i: int|
                0 <= i < cells.len() ==> (i < taken <==> (#[trigger] cells[i]).position().0
                    == first))
            &&& header_end(reached, context).len == batch_count(context, first)
        }),
{
    let state = header_step(no_header(), context, cells[0]);
    let later = cells.skip(1);
    let first = cells[0].position().0;
    if context.has_header {
        assert forall|i: int, j: int| 0 <= i <= j < later.len() implies (
        #[trigger] later[i]).position().0 <= (#[trigger] later[j]).position().0 by {
            assert(later[i] == cells[i + 1] && later[j] == cells[j + 1]);
        }
        assert forall|i: int| 0 <= i < later.len() implies first <= (
        #[trigger] later[i]).position().0 && data_fits(later[i].value()) by {
            assert(later[i] == cells[i + 1]);
            assert(cells[0].position().0 <= cells[i + 1].position().0);
        }
        lemma_header_row(state, context, first, later);
        let (reached, rest) = header_run(state, context, later);
        let data = data_cells(reached, rest);
        let taken = cells.len() - data.len();
        assert(data =~= cells.skip(taken));
        assert forall|i: int| 0 <= i < cells.len() implies (i < taken <==> (
        #[trigger] cells[i]).position().0 == first) by {
            if i > 0 {
                assert(cells[i] == later[i - 1]);
            }
        }
    } else {
        assert(header_run(state, context, later) == (state, later));
        assert(seq![cells[0]] + later =~= cells.skip(0));
    }
}

proof fn lemma_header_row(
    state: HeaderState,
    context: HeaderContext,
    first: u32,
    cells: Seq<Cell<Data>>,
)
    requires
        state.phase == HeaderPhase::Row(first),
        state.cache is None,
        row_by_row(cells, first as int),
    ensures
        ({
            let (reached, rest) = header_run(state, context, cells);
            let data = data_cells(reached, rest);
            let taken = cells.len() - data.len();
            &&& 0 <= taken
            &&& data == cells.skip(taken)
            &&& forall|i: int|
                0 <= i < cells.len() ==> (i < taken <==> (#[trigger] cells[i]).position().0
                    == first)
            &&& header_end(reached, context).len == batch_count(context, first)
        }),
    decreases cells.len(),
{
    let (reached, rest) = header_run(state, context, cells);
    let data = data_cells(reached, rest);
    let taken = cells.len() - data.len();
    if cells.len() == 0 {
        assert(data =~= cells.skip(taken));
    } else {
        let later = cells.skip(1);
        let after = header_step(state, context, cells[0]);
        if cells[0].position().0 == first {
            assert forall|i: int, j: int| 0 <= i <= j < later.len() implies (
            #[trigger] later[i]).position().0 <= (#[trigger] later[j]).position().0 by {
                assert(later[i] == cells[i + 1] && later[j] == cells[j + 1]);
            }
            assert forall|i: int| 0 <= i < later.len() implies first <= (
            #[trigger] later[i]).position().0 && data_fits(later[i].value()) by {
                assert(later[i] == cells[i + 1]);
            }
            lemma_header_row(after, context, first, later);
            assert(data =~= cells.skip(taken));
            assert forall|i: int| 0 <= i < cells.len() implies (i < taken <==> (
            #[trigger] cells[i]).position().0 == first) by {
                if i > 0 {
                    assert(cells[i] == later[i - 1]);
                }
            }
        } else {
            assert(header_run(after, context, later) == (after, later));
            assert(data =~= cells.skip(0));
            assert forall|i: int| 0 <= i < cells.len() implies (
            #[trigger] cells[i]).position().0 != first by {
                assert(cells[0].position().0 <= cells[i].position().0);
            }
        }
    }
}

/// Asking after a row that lies behind none asked after before tells whether it is
/// listed, and asking again after it gives the same answer.
pub proof fn law_asking_again(skips: Seq<u32>, floor: int, row: u32)
    requires
        floor <= row,
    ensures
        is_skipped(skips, floor, row) == skips.contains(row),
        is_skipped(skips, larger(floor, row as int), row) == is_skipped(skips, floor, row),
{
}

/// The rows to be skipped have no say in the header: with other rows to be skipped
/// the same columns get the same names, and the data starts at the same cell.
pub proof fn law_header_ignores_skip_rows(
    state: HeaderState,
    context: HeaderContext,
    other_skips: Seq<u32>,
    other_len: int,
    cells: Seq<Cell<Data>>,
)
    ensures
        ({
            let other = HeaderContext { skips: other_skips, ..context };
            let (a, rest_a) = header_run(state, context, cells);
            let (b, rest_b) = header_run(HeaderState { len: other_len, ..state }, other, cells);
            a.headers == b.headers && a.phase == b.phase && a.cache == b.cache && rest_a == rest_b
        }),
    decreases cells.len(),
{
    let other = HeaderContext { skips: other_skips, ..context };
    if state.phase != HeaderPhase::Done && cells.len() > 0 {
        let a = header_step(state, context, cells[0]);
        let b = header_step(HeaderState { len: other_len, ..state }, other, cells[0]);
        assert(b == (HeaderState { len: b.len, ..a }));
        law_header_ignores_skip_rows(a, context, other_skips, b.len, cells.skip(1));
    }
}

/// Supplying cells in portions makes no difference: splitting a batch off from a
/// first portion that does not fill it, and going on with the next portion, comes
/// to the same as splitting it off from both in one run.
pub proof fn law_supplying_in_portions(
    run: RunState,
    skips: Seq<u32>,
    batch_size: int,
    first: Seq<Cell<Data>>,
    next: Seq<Cell<Data>>,
)
    requires
        split(run, skips, batch_size, first).end is Exhausted,
    ensures
        ({
            let whole = split(run, skips, batch_size, first + next);
            let head = split(run, skips, batch_size, first);
            let tail = split(head.run, skips, batch_size, next);
            &&& whole.taken == head.taken + tail.taken
            &&& whole.run == tail.run
            &&& whole.rest == tail.rest
            &&& whole.end == tail.end
        }),
    decreases first.len(),
{
    let head = split(run, skips, batch_size, first);
    let tail = split(head.run, skips, batch_size, next);
    if first.len() == 0 {
        assert(first + next =~= next);
        assert(head.taken + tail.taken =~= tail.taken);
    } else {
        let (after, step) = run_step(run, skips, batch_size, first[0].position().0);
        assert((first + next).skip(1) =~= first.skip(1) + next);
        assert((first + next)[0] == first[0]);
        match step {
            StepItem::Skipped => {
                law_supplying_in_portions(after, skips, batch_size, first.skip(1), next);
            },
            StepItem::Full => {},
            StepItem::Taken(row) => {
                law_supplying_in_portions(after, skips, batch_size, first.skip(1), next);
                let inner = split(after, skips, batch_size, first.skip(1));
                assert(head.taken + tail.taken =~= seq![(first[0], row)] + (inner.taken
                    + tail.taken));
            },
        }
    }
}

/// The columns of a sheet without a header are `col_0`, `col_1` and so on, as many as room
/// was made for: the digits in the name of a column read back as its number, so that no
/// two columns share a name.
pub proof fn law_columns_without_header(context: HeaderContext, cells: Seq<Cell<Data>>)
    requires
        !context.has_header,
        0 <= context.columns,
    ensures
        ({
            let (reached, _) = header_run(no_header(), context, cells);
            let names = header_end(reached, context).headers;
            &&& names.len() == context.columns
            &&& forall|i: int|
                0 <= i < names.len() ==> #[trigger] names[i].take(4) == "col_"@ && unsigned_value(
                    vstd::utf8::encode_utf8(names[i].skip(4)),
                    context.columns,
                ) == Some(i)
            &&& forall|i: int, j: int|
                0 <= i < j < names.len() ==> #[trigger] names[i] != #[trigger] names[j]
        }),
{
    reveal_strlit("col_");
    let (reached, _) = header_run(no_header(), context, cells);
    if cells.len() > 0 {
        let state = header_step(no_header(), context, cells[0]);
        assert(header_run(state, context, cells.skip(1)) == (state, cells.skip(1)));
    }
    let names = header_end(reached, context).headers;
    assert(names =~= col_names(context.columns));
    assert forall|i: int| 0 <= i < names.len() implies #[trigger] names[i].take(4) == "col_"@
        && unsigned_value(vstd::utf8::encode_utf8(names[i].skip(4)), context.columns) == Some(
        i,
    ) by {
        lemma_numbered("col_"@, i);
        law_decimal_reads_back(i);
    }
    assert forall|i: int, j: int| 0 <= i < j < names.len() implies #[trigger] names[i]
        != #[trigger] names[j] by {
        lemma_numbered("col_"@, i);
        lemma_numbered("col_"@, j);
        law_digits_differ(i as nat, j as nat);
    }
}

/// A numbered name is its prefix and the digits of its number.
proof fn lemma_numbered(prefix: Seq<char>, n: int)
    ensures
        numbered(prefix, n).take(prefix.len() as int) == prefix,
        numbered(prefix, n).skip(prefix.len() as int) == decimal_digits(n as nat),
{
    assert(numbered(prefix, n).take(prefix.len() as int) =~= prefix);
    assert(numbered(prefix, n).skip(prefix.len() as int) =~= decimal_digits(n as nat));
}

/// Whether the first `k` cells of a sheet are those of its header: they lie in the first
/// row, from left to right, and the cell after them, if there is one, lies in another row.
pub open spec fn is_header_row(cells: Seq<Cell<Data>>, k: int) -> bool {
    &&& 1 <= k <= cells.len()
    &&& forall|i: int|
        0 <= i < k ==> (#[trigger] cells[i]).position().0 == cells[0].position().0
    &&& forall|i: int, j: int|
        0 <= i < j < k ==> (#[trigger] cells[i]).position().1 < (#[trigger] cells[j]).position().1
    &&& k < cells.len() ==> cells[k].position().0 != cells[0].position().0
}

/// A header names the columns: the column of each of its cells has the text of the cell,
/// or where that is empty, and in a column without a cell, `Unknown_` and the number of
/// the column. Where data follows, every column up to the end of the used range has a
/// name. The first cell names the first column, wherever it lies, even where its text is
/// empty.
pub proof fn law_header_names_its_columns(context: HeaderContext, cells: Seq<Cell<Data>>, k: int)
    requires
        context.has_header,
        is_header_row(cells, k),
    ensures
        ({
            let (reached, _) = header_run(no_header(), context, cells);
            let names = header_end(reached, context).headers;
            let last = if k > 1 {
                cells[k - 1].position().1 as int
            } else {
                0
            };
            &&& names.len() == (if k < cells.len() && context.end.1 > last {
                context.end.1 + 1
            } else {
                last + 1
            })
            &&& names[0] == header_text(cells[0].value(), context.strings)
            &&& forall|i: int|
                1 <= i < k ==> names[(#[trigger] cells[i]).position().1 as int] == (if header_text(
                    cells[i].value(),
                    context.strings,
                ).len() == 0 {
                    "Unknown_"@ + decimal_digits(cells[i].position().1 as nat)
                } else {
                    header_text(cells[i].value(), context.strings)
                })
            &&& forall|c: int|
                #![trigger names[c]]
                1 <= c < names.len() && (forall|i: int|
                    1 <= i < k ==> (#[trigger] cells[i]).position().1 != c) ==> names[c]
                    == "Unknown_"@ + decimal_digits(c as nat)
        }),
{
    let first = cells[0].position().0;
    let state = header_step(no_header(), context, cells[0]);
    let later = cells.skip(1);
    assert forall|i: int| 0 <= i < k - 1 implies (#[trigger] later[i]).position().0 == first
        && later[i].position().1 >= 1 by {
        assert(later[i] == cells[i + 1]);
        assert(cells[0].position().1 < cells[i + 1].position().1);
    }
    assert forall|i: int, j: int| 0 <= i < j < k - 1 implies (#[trigger] later[i]).position().1 < (
    #[trigger] later[j]).position().1 by {
        assert(later[i] == cells[i + 1] && later[j] == cells[j + 1]);
    }
    if k < cells.len() {
        assert(later[k - 1] == cells[k]);
    }
    lemma_header_cells(state, context, first, later, k - 1);
    let (reached, _) = header_run(no_header(), context, cells);
    let names = header_end(reached, context).headers;
    if k > 1 {
        assert(later[k - 2] == cells[k - 1]);
    }
    assert(names[0] == state.headers[0]);
    assert forall|i: int| 1 <= i < k implies names[(#[trigger] cells[i]).position().1 as int]
        == cell_name(cells[i], context.strings) by {
        assert(later[i - 1] == cells[i]);
    }
    assert forall|c: int|
        #![trigger names[c]]
        1 <= c < names.len() && (forall|i: int|
            1 <= i < k ==> (#[trigger] cells[i]).position().1 != c) implies names[c] == numbered(
        "Unknown_"@,
        c,
    ) by {
        assert forall|i: int| 0 <= i < k - 1 implies (#[trigger] later[i]).position().1 != c by {
            assert(later[i] == cells[i + 1]);
        }
    }
}

/// The name that a cell of a header gives its column.
spec fn cell_name(cell: Cell<Data>, strings: Option<Seq<Seq<char>>>) -> Seq<char> {
    let text = header_text(cell.value(), strings);
    if text.len() == 0 {
        numbered("Unknown_"@, cell.position().1 as int)
    } else {
        text
    }
}

proof fn lemma_header_cells(
    state: HeaderState,
    context: HeaderContext,
    first: u32,
    cells: Seq<Cell<Data>>,
    k: int,
)
    requires
        state.phase == HeaderPhase::Row(first),
        0 <= k <= cells.len(),
        forall|i: int|
            0 <= i < k ==> (#[trigger] cells[i]).position().0 == first && cells[i].position().1
                >= state.headers.len(),
        forall|i: int, j: int|
            0 <= i < j < k ==> (#[trigger] cells[i]).position().1 < (
            #[trigger] cells[j]).position().1,
        k < cells.len() ==> cells[k].position().0 != first,
    ensures
        ({
            let had = state.headers;
            let (reached, _) = header_run(state, context, cells);
            let names = header_end(reached, context).headers;
            let named = if k > 0 {
                cells[k - 1].position().1 + 1
            } else {
                had.len() as int
            };
            &&& names.len() == (if k < cells.len() && context.end.1 + 1 > named {
                context.end.1 + 1
            } else {
                named
            })
            &&& forall|c: int| 0 <= c < had.len() ==> #[trigger] names[c] == had[c]
            &&& forall|i: int|
                0 <= i < k ==> names[(#[trigger] cells[i]).position().1 as int] == cell_name(
                    cells[i],
                    context.strings,
                )
            &&& forall|c: int|
                #![trigger names[c]]
                had.len() <= c < names.len() && (forall|i: int|
                    0 <= i < k ==> (#[trigger] cells[i]).position().1 != c) ==> names[c]
                    == numbered("Unknown_"@, c)
        }),
    decreases k,
{
    let had = state.headers;
    let (reached, _) = header_run(state, context, cells);
    let names = header_end(reached, context).headers;
    if k == 0 {
        if cells.len() > 0 {
            let after = header_step(state, context, cells[0]);
            assert(header_run(after, context, cells.skip(1)) == (after, cells.skip(1)));
        }
    } else {
        let cell = cells[0];
        let col = cell.position().1 as int;
        let after = header_step(state, context, cell);
        let later = cells.skip(1);
        assert(after.headers =~= with_unknown(had, col).push(cell_name(cell, context.strings)));
        assert(after.headers.len() == col + 1);
        assert forall|i: int| 0 <= i < k - 1 implies (#[trigger] later[i]).position().0 == first
            && later[i].position().1 >= after.headers.len() by {
            assert(later[i] == cells[i + 1]);
            assert(cells[0].position().1 < cells[i + 1].position().1);
        }
        assert forall|i: int, j: int| 0 <= i < j < k - 1 implies (#[trigger] later[i]).position().1
            < (#[trigger] later[j]).position().1 by {
            assert(later[i] == cells[i + 1] && later[j] == cells[j + 1]);
        }
        if k < cells.len() {
            assert(later[k - 1] == cells[k]);
        }
        lemma_header_cells(after, context, first, later, k - 1);
        if k > 1 {
            assert(later[k - 2] == cells[k - 1]);
        }
        assert forall|c: int| 0 <= c < had.len() implies #[trigger] names[c] == had[c] by {
            assert(names[c] == after.headers[c]);
        }
        assert forall|i: int| 0 <= i < k implies names[(#[trigger] cells[i]).position().1 as int]
            == cell_name(cells[i], context.strings) by {
            if i == 0 {
                assert(names[col] == after.headers[col]);
            } else {
                assert(later[i - 1] == cells[i]);
            }
        }
        assert forall|c: int|
            #![trigger names[c]]
            had.len() <= c < names.len() && (forall|i: int|
                0 <= i < k ==> (#[trigger] cells[i]).position().1 != c) implies names[c]
            == numbered("Unknown_"@, c) by {
            assert(cells[0].position().1 != c);
            if c < col {
                assert(names[c] == after.headers[c]);
            } else {
                assert forall|i: int| 0 <= i < k - 1 implies (#[trigger] later[i]).position().1
                    != c by {
                    assert(later[i] == cells[i + 1]);
                }
            }
        }
    }
}

/// The text of a header's cell is that of its value: a text as it is, an integer in
/// decimal notation, a shared string the one that it refers to, and nothing for an empty
/// cell or a shared string that there is not.
pub proof fn law_header_texts(data: Data, strings: Seq<Seq<char>>)
    ensures
        data matches Data::String(s) ==> header_text(data, Some(strings)) == s@,
        data matches Data::Int(n) ==> signed_value(
            vstd::utf8::encode_utf8(header_text(data, Some(strings))),
        ) == Some(n as int),
        data matches Data::SharedStringRef(i) ==> (if i < strings.len() {
            header_text(data, Some(strings)) == strings[i as int]
        } else {
            header_text(data, Some(strings)).len() == 0
        }),
        data is Empty ==> header_text(data, Some(strings)).len() == 0,
        !(data is SharedStringRef) ==> header_text(data, Some(strings)) == data_text(data)
            && header_text(data, None) == data_text(data),
        data matches Data::Bool(b) ==> header_text(data, Some(strings)) == (if b {
            "true"@
        } else {
            "false"@
        }),
{
    if let Data::Int(n) = data {
        law_decimal_reads_back(n as int);
    }
}

/// The cells that are kept are those whose rows are not listed, and no others.
pub proof fn law_kept_cells(cells: Seq<Cell<Data>>, skips: Seq<u32>, cell: Cell<Data>)
    ensures
        kept(cells, skips).contains(cell) <==> cells.contains(cell) && !skips.contains(
            cell.position().0,
        ),
        kept(cells, skips).len() <= cells.len(),
        (forall|i: int|
            0 <= i < cells.len() ==> !skips.contains((#[trigger] cells[i]).position().0))
            ==> kept(cells, skips) == cells,
    decreases cells.len(),
{
    if cells.len() > 0 {
        let later = cells.skip(1);
        let first = cells[0];
        law_kept_cells(later, skips, cell);
        let rest = kept(later, skips);
        let all = kept(cells, skips);
        assert(cells.contains(cell) <==> cell == first || later.contains(cell)) by {
            assert(cells =~= seq![first] + later);
            if cells.contains(cell) {
                let i = choose|i: int| 0 <= i < cells.len() && cells[i] == cell;
                if i > 0 {
                    assert(later[i - 1] == cell);
                }
            }
            if later.contains(cell) {
                let i = choose|i: int| 0 <= i < later.len() && later[i] == cell;
                assert(cells[i + 1] == cell);
            }
            assert(cells[0] == first);
        }
        if !skips.contains(first.position().0) {
            assert(all == seq![first] + rest);
            assert(all.contains(cell) <==> cell == first || rest.contains(cell)) by {
                if all.contains(cell) {
                    let i = choose|i: int| 0 <= i < all.len() && all[i] == cell;
                    if i > 0 {
                        assert(rest[i - 1] == cell);
                    }
                }
                if rest.contains(cell) {
                    let i = choose|i: int| 0 <= i < rest.len() && rest[i] == cell;
                    assert(all[i + 1] == cell);
                }
                assert(all[0] == first);
            }
        }
        if forall|i: int|
            0 <= i < cells.len() ==> !skips.contains((#[trigger] cells[i]).position().0) {
            assert(!skips.contains(cells[0].position().0));
            assert forall|i: int| 0 <= i < later.len() implies !skips.contains(
                (#[trigger] later[i]).position().0,
            ) by {
                assert(later[i] == cells[i + 1]);
            }
            assert(all =~= cells);
        }
    }
}

/// A sheet that is about to be read has a column for each of its used range, all empty, and
/// of no type yet; as many rows make a batch as are asked for; and where it has no header its
/// columns get names by their numbers, as many as the used range has.
pub proof fn law_fresh_sheet(
    iter: DataFrameIter,
    batch_size: Option<usize>,
    range: ((int, int), (int, int)),
    texts: Seq<Seq<char>>,
    has_header: bool,
    skip_rows: Seq<u32>,
    cells: Seq<Cell<Data>>,
)
    requires
        about_to_read(iter, batch_size, range, texts, has_header, skip_rows),
    ensures
        iter.state().cols.len() == range.1.1 + 1,
        iter.state().dtypes.len() == range.1.1 + 1,
        forall|c: int|
            0 <= c <= range.1.1 ==> (#[trigger] iter.state().cols[c]).items.len() == 0
                && iter.state().dtypes[c] is None,
        batch_size matches Some(n) ==> iter.batch_size() == n,
        batch_size is None ==> iter.batch_size() == range.1.0 + 1 - (if has_header {
            1int
        } else {
            0int
        }),
        forall|row: u32| iter.skips().contains(row) <==> #[trigger] skip_rows.contains(row),
        !has_header ==> header_end(
            header_run(iter.header_state(), iter.context(), cells).0,
            iter.context(),
        ).headers.len() == range.1.1 + 1,
{
    broadcast use vstd::seq_lib::group_to_multiset_ensures;

    assert forall|row: u32| iter.skips().contains(row) <==> #[trigger] skip_rows.contains(row) by {
        assert(iter.skips().contains(row) <==> iter.skips().to_multiset().count(row) > 0);
        assert(skip_rows.contains(row) <==> skip_rows.to_multiset().count(row) > 0);
    }
    if !has_header {
        law_columns_without_header(iter.context(), cells);
    }
}

} // verus!
