//! Cells row by row.

use crate::excel_types::Cell;
use vstd::prelude::*;

verus! {

/// Where the row that starts a run of cells ends: at the first cell of another row.
pub open spec fn row_end<T>(cells: Seq<Cell<T>>, from: int) -> int
    decreases cells.len() - from,
{
    if from >= cells.len() {
        cells.len() as int
    } else if cells[from].position().0 == cells[0].position().0 {
        row_end(cells, from + 1)
    } else {
        from
    }
}

/// Cells split wherever a cell lies in another row than the one before it.
pub open spec fn rows_of<T>(cells: Seq<Cell<T>>) -> Seq<Seq<Cell<T>>>
    decreases cells.len() via rows_of_ends::<T>
{
    if cells.len() == 0 {
        Seq::empty()
    } else {
        let end = row_end(cells, 0);
        seq![cells.take(end)] + rows_of(cells.skip(end))
    }
}

#[via_fn]
proof fn rows_of_ends<T>(cells: Seq<Cell<T>>) {
    if cells.len() > 0 {
        lemma_row_end(cells, 0);
    }
}

/// A row holds its first cell, and its cells all lie in the row of that cell.
pub proof fn lemma_row_end<T>(cells: Seq<Cell<T>>, from: int)
    requires
        0 <= from <= cells.len(),
        cells.len() > 0,
        forall|i: int|
            0 <= i < from ==> (#[trigger] cells[i]).position().0 == cells[0].position().0,
    ensures
        from <= row_end(cells, from) <= cells.len(),
        row_end(cells, from) >= 1,
        forall|i: int|
            0 <= i < row_end(cells, from) ==> (#[trigger] cells[i]).position().0
                == cells[0].position().0,
        row_end(cells, from) < cells.len() ==> cells[row_end(cells, from)].position().0
            != cells[0].position().0,
    decreases cells.len() - from,
{
    if from < cells.len() && cells[from].position().0 == cells[0].position().0 {
        lemma_row_end(cells, from + 1);
    }
}

/// The cells of all rows, one row after the other.
pub open spec fn all_cells<T>(rows: Seq<Seq<Cell<T>>>) -> Seq<Cell<T>>
    decreases rows.len(),
{
    if rows.len() == 0 {
        Seq::empty()
    } else {
        rows[0] + all_cells(rows.skip(1))
    }
}

/// Splitting into rows loses no cell and changes no order; no row is empty, and the
/// cells of a row all lie in one row of the sheet.
pub proof fn law_rows_hold_all_cells<T>(cells: Seq<Cell<T>>)
    ensures
        all_cells(rows_of(cells)) == cells,
        forall|r: int|
            0 <= r < rows_of(cells).len() ==> (#[trigger] rows_of(cells)[r]).len() > 0,
        forall|r: int, k: int|
            #![trigger rows_of(cells)[r][k]]
            0 <= r < rows_of(cells).len() && 0 <= k < rows_of(cells)[r].len() ==> rows_of(
                cells,
            )[r][k].position().0 == rows_of(cells)[r][0].position().0,
    decreases cells.len(),
{
    if cells.len() > 0 {
        lemma_row_end(cells, 0);
        let end = row_end(cells, 0);
        let rest = cells.skip(end);
        law_rows_hold_all_cells(rest);
        let rows = rows_of(cells);
        let later = rows_of(rest);
        assert(rows == seq![cells.take(end)] + later);
        assert(rows.skip(1) =~= later);
        assert(all_cells(rows) =~= cells);
        assert forall|r: int| 0 <= r < rows.len() implies (#[trigger] rows[r]).len() > 0 by {
            if r > 0 {
                assert(rows[r] == later[r - 1]);
            }
        }
        assert forall|r: int, k: int|
            #![trigger rows[r][k]]
            0 <= r < rows.len() && 0 <= k < rows[r].len() implies rows[r][k].position().0
            == rows[r][0].position().0 by {
            if r > 0 {
                assert(rows[r] == later[r - 1]);
                assert(later[r - 1][k].position().0 == later[r - 1][0].position().0);
            }
        }
    }
}

/// Collects cells into rows. It holds one row at a time.
pub struct RowGrouper<T> {
    row: Vec<Cell<T>>,
}

/// Whether all cells lie in the row of the first one.
pub open spec fn one_row<T>(cells: Seq<Cell<T>>) -> bool {
    forall|i: int|
        0 <= i < cells.len() ==> (#[trigger] cells[i]).position().0 == cells[0].position().0
}

impl<T> RowGrouper<T> {
    /// The cells of the row so far.
    pub closed spec fn cells(&self) -> Seq<Cell<T>> {
        self.row@
    }

    pub open spec fn wf(&self) -> bool {
        one_row(self.cells())
    }

    pub fn new() -> (grouper: Self)
        ensures
            grouper.wf(),
            grouper.cells() == Seq::<Cell<T>>::empty(),
    {
        RowGrouper { row: Vec::new() }
    }

    /// Takes the next cell. Where it lies in another row, the row so far is handed
    /// out.
    pub fn offer(&mut self, cell: Cell<T>) -> (row: Option<Vec<Cell<T>>>)
        requires
            old(self).wf(),
        ensures
            final(self).wf(),
            match row {
                Some(cells) => old(self).cells().len() > 0
                    && cell.position().0 != old(self).cells()[0].position().0
                    && cells@ == old(self).cells() && final(self).cells()
                    == seq![cell],
                None => (old(self).cells().len() == 0 || cell.position().0 == old(self).cells()[0].position().0) && final(self).cells() == old(self).cells().push(cell),
            },
    {
        if self.row.len() == 0 || self.row[0].get_position().0 == cell.get_position().0 {
            self.row.push(cell);
            return None;
        }
        let mut done: Vec<Cell<T>> = Vec::new();
        core::mem::swap(&mut done, &mut self.row);
        self.row.push(cell);
        assert(self.row@ =~= seq![cell]);
        Some(done)
    }

    /// Hands out the last row, if there is one.
    pub fn finish(self) -> (row: Option<Vec<Cell<T>>>)
        ensures
            match row {
                Some(cells) => cells@ == self.cells() && cells.len() > 0,
                None => self.cells().len() == 0,
            },
    {
        if self.row.len() == 0 {
            None
        } else {
            Some(self.row)
        }
    }
}

/// Rows as contracts speak of them.
pub open spec fn row_items<T>(rows: Seq<Vec<Cell<T>>>) -> Seq<Seq<Cell<T>>> {
    rows.map_values(|row: Vec<Cell<T>>| row@)
}

proof fn lemma_row_complete<T>(row: Seq<Cell<T>>, rest: Seq<Cell<T>>)
    requires
        row.len() > 0,
        one_row(row),
        rest.len() > 0 ==> rest[0].position().0 != row[0].position().0,
    ensures
        rows_of(row + rest) == seq![row] + rows_of(rest),
{
    let cells = row + rest;
    lemma_row_end_at(cells, row, rest, 0);
    assert(cells.take(row.len() as int) =~= row);
    assert(cells.skip(row.len() as int) =~= rest);
}

proof fn lemma_row_end_at<T>(cells: Seq<Cell<T>>, row: Seq<Cell<T>>, rest: Seq<Cell<T>>, from: int)
    requires
        cells == row + rest,
        row.len() > 0,
        one_row(row),
        rest.len() > 0 ==> rest[0].position().0 != row[0].position().0,
        0 <= from <= row.len(),
    ensures
        row_end(cells, from) == row.len(),
    decreases row.len() - from,
{
    assert(cells[0] == row[0]);
    if from < row.len() {
        assert(cells[from] == row[from]);
        lemma_row_end_at(cells, row, rest, from + 1);
    } else if rest.len() > 0 {
        assert(cells[from] == rest[0]);
    }
}

/// Splits cells into rows.
pub fn lazy_rows<T>(cells: Vec<Cell<T>>) -> (rows: Vec<Vec<Cell<T>>>)
    ensures
        row_items(rows@) == rows_of(cells@),
{
    let ghost given = cells@;
    let mut reversed: Vec<Cell<T>> = Vec::with_capacity(cells.len());
    let mut cells = cells;
    while cells.len() > 0
        invariant
            given == cells@ + reversed@.reverse(),
        decreases cells.len(),
    {
        let ghost left = cells@;
        let ghost so_far = reversed@;
        if let Some(cell) = cells.pop() {
            reversed.push(cell);
            assert(left =~= cells@.push(cell));
            assert(reversed@.reverse() =~= seq![cell] + so_far.reverse());
            assert(given =~= cells@ + reversed@.reverse());
        }
    }
    assert(given =~= reversed@.reverse());
    let mut grouper: RowGrouper<T> = RowGrouper::new();
    let mut rows: Vec<Vec<Cell<T>>> = Vec::new();
    assert(row_items(rows@) + rows_of(grouper.cells() + reversed@.reverse()) =~= rows_of(given)) by {
        assert(grouper.cells() + reversed@.reverse() =~= given);
    }
    while reversed.len() > 0
        invariant
            grouper.wf(),
            row_items(rows@) + rows_of(grouper.cells() + reversed@.reverse()) == rows_of(given),
        decreases reversed.len(),
    {
        let ghost waiting = reversed@;
        let ghost before = grouper.cells();
        let ghost found = rows@;
        assert(waiting.reverse() =~= seq![waiting.last()] + waiting.drop_last().reverse());
        if let Some(cell) = reversed.pop() {
            match grouper.offer(cell) {
                None => {
                    assert(before + waiting.reverse() =~= grouper.cells() + reversed@.reverse());
                },
                Some(row) => {
                    rows.push(row);
                    proof {
                        let rest = waiting.reverse();
                        lemma_row_complete(before, rest);
                        assert(rest =~= grouper.cells() + reversed@.reverse());
                        assert(row_items(rows@) =~= row_items(found).push(before));
                        assert(row_items(rows@) + rows_of(rest) =~= row_items(found) + (seq![
                            before,
                        ] + rows_of(rest)));
                    }
                },
            }
        }
    }
    let ghost last = grouper.cells();
    let ghost found = rows@;
    assert(last + reversed@.reverse() =~= last);
    match grouper.finish() {
        Some(row) => {
            rows.push(row);
            proof {
                let none = Seq::<Cell<T>>::empty();
                lemma_row_complete(last, none);
                assert(last + none =~= last);
                assert(row_items(rows@) =~= row_items(found).push(last));
                assert(rows_of(last) =~= seq![last]);
            }
        },
        None => {
            assert(rows_of(last) =~= Seq::<Seq<Cell<T>>>::empty());
        },
    }
    assert(row_items(rows@) =~= rows_of(given));
    rows
}

/// Cells of one row that follow each other are in one piece: where one row ends and the next
/// begins, the cells lie in different rows of the sheet.
pub proof fn law_rows_are_not_torn<T>(cells: Seq<Cell<T>>)
    ensures
        forall|r: int|
            #![trigger rows_of(cells)[r]]
            0 <= r < rows_of(cells).len() - 1 ==> rows_of(cells)[r].last().position().0
                != rows_of(cells)[r + 1][0].position().0,
        cells.len() > 0 ==> rows_of(cells).len() > 0 && rows_of(cells)[0][0] == cells[0],
    decreases cells.len(),
{
    if cells.len() > 0 {
        lemma_row_end(cells, 0);
        let end = row_end(cells, 0);
        let rest = cells.skip(end);
        law_rows_are_not_torn(rest);
        lemma_row_stops(cells, 0);
        let rows = rows_of(cells);
        let later = rows_of(rest);
        assert(rows == seq![cells.take(end)] + later);
        assert forall|r: int|
            #![trigger rows[r]]
            0 <= r < rows.len() - 1 implies rows[r].last().position().0
            != rows[r + 1][0].position().0 by {
            assert(rows[r + 1] == later[r]);
            if r == 0 {
                assert(rest.len() > 0);
                assert(later[0][0] == rest[0]);
                assert(rest[0] == cells[end]);
                assert(rows[0].last() == cells[end - 1]);
            } else {
                assert(rows[r] == later[r - 1]);
            }
        }
    }
}

/// A row ends at a cell of another row.
proof fn lemma_row_stops<T>(cells: Seq<Cell<T>>, from: int)
    requires
        0 <= from <= cells.len(),
        cells.len() > 0,
    ensures
        row_end(cells, from) < cells.len() ==> cells[row_end(cells, from)].position().0
            != cells[0].position().0,
    decreases cells.len() - from,
{
    if from < cells.len() && cells[from].position().0 == cells[0].position().0 {
        lemma_row_stops(cells, from + 1);
    }
}

} // verus!
