//! The frames of a whole sheet: what comes of asking for batches until there are none.

use crate::df_iter::{
    after_batch, all_batches, any_entry, batch_total, cells_of, cols_taken, kept,
    law_batch_takes_kept_cells, law_batches_hold_all_kept_cells, law_number_of_batches,
    law_rows_are_numbered, lemma_full_batch_is_not_empty, lemma_rows_of_batch, no_rows,
    numbered_by_row, row_by_row, rows_in, rows_per_batch, run_fits, run_step, split, RunState,
    StepItem,
};
use crate::excel_types::{Cell, Data};
use crate::typed_col::Item;
use crate::typed_cols::{
    col_after, cols_fit, inferred, law_value_lands_in_its_row, longest, shows,
    value_item, with_col, ColState, ColsState,
};
use vstd::prelude::*;

verus! {

/// No columns, with the types that were inferred so far.
pub open spec fn handed_out(cols: ColsState) -> ColsState {
    ColsState { cols: Seq::empty(), ..cols }
}

/// The columns of all frames that a run of cells makes, the last cell supplied. A text
/// that is too long ends them.
pub open spec fn frames_of(
    run: RunState,
    state: ColsState,
    skips: Seq<u32>,
    batch_size: int,
    strings: Option<Seq<Seq<char>>>,
    cells: Seq<Cell<Data>>,
) -> Seq<ColsState>
    decreases
            cells.len(),
            (if run.started {
                1int
            } else {
                0int
            }),
{
    let part = split(run, skips, batch_size, cells);
    let cols = cols_taken(state, part.taken, strings);
    if !any_entry(cols) || part.end is TooLong || !part.run.started {
        Seq::empty()
    } else if part.end is Exhausted {
        seq![cols]
    } else if part.rest.len() < cells.len() || (part.rest.len() == cells.len() && run.started) {
        seq![cols] + frames_of(
            after_batch(part.run),
            handed_out(cols),
            skips,
            batch_size,
            strings,
            part.rest,
        )
    } else {
        Seq::empty()
    }
}

/// The batches that a run of cells makes, each with its cells and their rows in it.
pub open spec fn batches_of(
    run: RunState,
    skips: Seq<u32>,
    batch_size: int,
    cells: Seq<Cell<Data>>,
) -> Seq<Seq<(Cell<Data>, int)>>
    decreases cells.len(),
{
    let part = split(run, skips, batch_size, cells);
    if part.end is Full && part.rest.len() < cells.len() {
        seq![part.taken] + batches_of(after_batch(part.run), skips, batch_size, part.rest)
    } else if part.taken.len() > 0 {
        seq![part.taken]
    } else {
        Seq::empty()
    }
}

/// The cells of batches, one batch after the other.
pub open spec fn cells_in(batches: Seq<Seq<(Cell<Data>, int)>>) -> Seq<Cell<Data>>
    decreases batches.len(),
{
    if batches.len() == 0 {
        Seq::empty()
    } else {
        cells_of(batches[0]) + cells_in(batches.skip(1))
    }
}

/// Whether no two cells have the same position.
pub open spec fn apart(cells: Seq<Cell<Data>>) -> bool {
    forall|i: int, j: int|
        0 <= i < j < cells.len() ==> (#[trigger] cells[i]).position() != (
        #[trigger] cells[j]).position()
}

/// Whether the rows of a batch come in order and no place is taken twice.
pub open spec fn placed(batch: Seq<(Cell<Data>, int)>) -> bool {
    &&& forall|i: int| 0 <= i < batch.len() ==> 0 <= (#[trigger] batch[i]).1
    &&& forall|i: int, j: int|
        0 <= i < j < batch.len() ==> (#[trigger] batch[i]).1 <= (#[trigger] batch[j]).1 && (
        batch[i].1 == batch[j].1 ==> batch[i].0.position().1 != batch[j].0.position().1)
}

/// Whether the columns of a frame hold a batch: they are as high as the batch has rows,
/// every cell shows in its row and column, and nothing else does.
pub open spec fn holds(
    cols: Seq<ColState>,
    batch: Seq<(Cell<Data>, int)>,
    strings: Option<Seq<Seq<char>>>,
) -> bool {
    &&& batch.len() > 0
    &&& longest(cols) == batch.last().1 + 1
    &&& forall|i: int| 0 <= i < batch.len() ==> cell_shows(cols, #[trigger] batch[i], strings)
    &&& forall|c: int, r: int|
        0 <= c < cols.len() && 0 <= r < cols[c].items.len() && !((
        #[trigger] cols[c].items[r]) is Null) ==> exists|i: int|
            0 <= i < batch.len() && (#[trigger] batch[i]).1 == r && batch[i].0.position().1 == c
}

/// Whether a cell shows in its row and column.
pub open spec fn cell_shows(
    cols: Seq<ColState>,
    placed_cell: (Cell<Data>, int),
    strings: Option<Seq<Seq<char>>>,
) -> bool {
    let (cell, row) = placed_cell;
    let col = cell.position().1 as int;
    &&& col < cols.len()
    &&& 0 <= row < cols[col].items.len()
    &&& shows(cols[col].items[row], value_item(cell.value(), strings))
}

/// The rows of a batch up to the last one that has a cell in a column.
pub open spec fn rows_up_to(batch: Seq<(Cell<Data>, int)>, col: int) -> int
    decreases batch.len(),
{
    if batch.len() == 0 {
        0
    } else if batch.last().0.position().1 == col {
        batch.last().1 + 1
    } else {
        rows_up_to(batch.drop_last(), col)
    }
}

proof fn lemma_rows_up_to(batch: Seq<(Cell<Data>, int)>, col: int)
    ensures
        rows_up_to(batch, col) == 0 || exists|i: int|
            0 <= i < batch.len() && (#[trigger] batch[i]).0.position().1 == col && batch[i].1 + 1
                == rows_up_to(batch, col),
    decreases batch.len(),
{
    if batch.len() > 0 {
        let front = batch.drop_last();
        if batch.last().0.position().1 == col {
            assert(batch[batch.len() - 1].0.position().1 == col);
        } else {
            lemma_rows_up_to(front, col);
            if rows_up_to(front, col) != 0 {
                let i = choose|i: int|
                    0 <= i < front.len() && (#[trigger] front[i]).0.position().1 == col
                        && front[i].1 + 1 == rows_up_to(front, col);
                assert(batch[i] == front[i]);
            }
        }
    }
}

proof fn lemma_longest_is(cols: Seq<ColState>, height: int, at: int)
    requires
        0 <= at < cols.len(),
        cols[at].items.len() == height,
        forall|i: int| 0 <= i < cols.len() ==> (#[trigger] cols[i]).items.len() <= height,
    ensures
        longest(cols) == height,
    decreases cols.len(),
{
    let front = cols.drop_last();
    lemma_longest_bound(front, height);
    if at < front.len() {
        lemma_longest_is(front, height, at);
    }
}

proof fn lemma_longest_bound(cols: Seq<ColState>, height: int)
    requires
        forall|i: int| 0 <= i < cols.len() ==> (#[trigger] cols[i]).items.len() <= height,
        0 <= height,
    ensures
        0 <= longest(cols) <= height,
    decreases cols.len(),
{
    if cols.len() > 0 {
        lemma_longest_bound(cols.drop_last(), height);
    }
}

/// The columns after the cells of a batch hold the batch.
pub(crate) proof fn lemma_batch_is_held(
    state: ColsState,
    batch: Seq<(Cell<Data>, int)>,
    strings: Option<Seq<Seq<char>>>,
)
    requires
        cols_fit(state),
        forall|c: int| 0 <= c < state.cols.len() ==> (#[trigger] state.cols[c]).items.len() == 0,
        placed(batch),
    ensures
        ({
            let after = cols_taken(state, batch, strings);
            &&& cols_fit(after)
            &&& batch.len() > 0 ==> holds(after.cols, batch, strings) && any_entry(after)
            &&& forall|c: int|
                0 <= c < after.cols.len() ==> (#[trigger] after.cols[c]).items.len() == rows_up_to(
                    batch,
                    c,
                )
            &&& forall|i: int|
                0 <= i < batch.len() ==> (#[trigger] batch[i]).0.position().1 < after.cols.len()
        }),
    decreases batch.len(),
{
    if batch.len() > 0 {
        let front = batch.drop_last();
        let (cell, row) = batch.last();
        let col = cell.position().1 as int;
        assert forall|i: int, j: int| 0 <= i < j < front.len() implies (#[trigger] front[i]).1 <= (
        #[trigger] front[j]).1 && (front[i].1 == front[j].1 ==> front[i].0.position().1
            != front[j].0.position().1) by {
            assert(batch[i] == front[i] && batch[j] == front[j]);
        }
        assert forall|i: int| 0 <= i < front.len() implies 0 <= (#[trigger] front[i]).1 by {
            assert(batch[i] == front[i]);
        }
        lemma_batch_is_held(state, front, strings);
        let before = cols_taken(state, front, strings);
        let after = cols_taken(state, batch, strings);
        let wide = with_col(before, col);
        assert(cols_fit(wide));
        assert forall|c: int| 0 <= c < wide.cols.len() implies (#[trigger] wide.cols[c]).items.len()
            == rows_up_to(front, c) by {
            lemma_rows_up_to(front, c);
            if c >= before.cols.len() && rows_up_to(front, c) != 0 {
                let i = choose|i: int|
                    0 <= i < front.len() && (#[trigger] front[i]).0.position().1 == c
                        && front[i].1 + 1 == rows_up_to(front, c);
                assert(front[i].0.position().1 < before.cols.len());
            }
        }
        lemma_rows_up_to(front, col);
        assert(batch[batch.len() - 1] == (cell, row));
        assert(rows_up_to(front, col) <= row) by {
            if rows_up_to(front, col) != 0 {
                let i = choose|i: int|
                    0 <= i < front.len() && (#[trigger] front[i]).0.position().1 == col
                        && front[i].1 + 1 == rows_up_to(front, col);
                assert(batch[i] == front[i]);
            }
        }
        law_value_lands_in_its_row(wide.cols[col], wide.dtypes[col], cell.value(), row, strings);
        let placed_col = col_after(
            wide.cols[col],
            inferred(wide.dtypes[col], cell.value()),
            cell.value(),
            row,
            strings,
        );
        assert(after.cols == wide.cols.update(col, placed_col));
        assert(cols_fit(after));
        assert forall|c: int| 0 <= c < after.cols.len() implies (
        #[trigger] after.cols[c]).items.len() == rows_up_to(batch, c) by {}
        assert forall|i: int| 0 <= i < batch.len() implies (#[trigger] batch[i]).0.position().1
            < after.cols.len() by {
            if i < front.len() {
                assert(batch[i] == front[i]);
            }
        }
        assert forall|i: int| 0 <= i < batch.len() implies cell_shows(
            after.cols,
            #[trigger] batch[i],
            strings,
        ) by {
            if i < front.len() {
                assert(batch[i] == front[i]);
                assert(cell_shows(before.cols, front[i], strings));
            }
        }
        assert forall|c: int, r: int|
            0 <= c < after.cols.len() && 0 <= r < after.cols[c].items.len() && !((
            #[trigger] after.cols[c].items[r]) is Null) implies exists|i: int|
            0 <= i < batch.len() && (#[trigger] batch[i]).1 == r && batch[i].0.position().1
                == c by {
            if c == col && r == row {
                assert(batch[batch.len() - 1].1 == r);
            } else {
                if c == col {
                    if r < wide.cols[col].items.len() && wide.cols[col].items[r] is Null {
                        assert(shows(wide.cols[col].items[r], Item::Null));
                        assert(shows(after.cols[col].items[r], Item::Null));
                    }
                    assert(!(wide.cols[c].items[r] is Null));
                }
                assert(c < before.cols.len());
                assert(!(before.cols[c].items[r] is Null));
                assert(front.len() > 0);
                let i = choose|i: int|
                    0 <= i < front.len() && (#[trigger] front[i]).1 == r
                        && front[i].0.position().1 == c;
                assert(batch[i] == front[i]);
            }
        }
        assert forall|c: int| 0 <= c < after.cols.len() implies (
        #[trigger] after.cols[c]).items.len() <= row + 1 by {
            lemma_rows_up_to(batch, c);
            if rows_up_to(batch, c) != 0 {
                let i = choose|i: int|
                    0 <= i < batch.len() && (#[trigger] batch[i]).0.position().1 == c
                        && batch[i].1 + 1 == rows_up_to(batch, c);
                if i < batch.len() - 1 {
                    assert(batch[i].1 <= batch[batch.len() - 1].1);
                }
            }
        }
        lemma_longest_is(after.cols, row + 1, col);
        assert(after.cols[col].items.len() > 0);
    }
}

/// Rows that are numbered in order come in order, and a number stands for one row.
proof fn lemma_numbering(taken: Seq<(Cell<Data>, int)>, i: int, j: int)
    requires
        numbered_by_row(taken, None, 0),
        0 <= i <= j < taken.len(),
    ensures
        0 <= taken[i].1 <= taken[j].1,
        taken[i].1 == taken[j].1 ==> taken[i].0.position().0 == taken[j].0.position().0,
    decreases j,
{
    if i < j {
        lemma_numbering(taken, i, j - 1);
    } else if i > 0 {
        lemma_numbering(taken, i - 1, i - 1);
    }
}

proof fn lemma_kept_apart(cells: Seq<Cell<Data>>, skips: Seq<u32>)
    requires
        apart(cells),
    ensures
        apart(kept(cells, skips)),
        forall|i: int|
            0 <= i < kept(cells, skips).len() ==> cells.contains(#[trigger] kept(cells, skips)[i]),
    decreases cells.len(),
{
    if cells.len() > 0 {
        let later = cells.skip(1);
        lemma_skip_apart(cells);
        lemma_kept_apart(later, skips);
        let rest = kept(later, skips);
        let all = kept(cells, skips);
        assert forall|i: int| 0 <= i < rest.len() implies cells.contains(#[trigger] rest[i])
            && rest[i].position() != cells[0].position() by {
            assert(later.contains(rest[i]));
            let k = choose|k: int| 0 <= k < later.len() && later[k] == rest[i];
            assert(cells[k + 1] == rest[i]);
        }
        assert forall|i: int| 0 <= i < all.len() implies cells.contains(#[trigger] all[i]) by {
            if skips.contains(cells[0].position().0) {
                assert(all[i] == rest[i]);
            } else if i > 0 {
                assert(all[i] == rest[i - 1]);
            } else {
                assert(cells[0] == all[0]);
            }
        }
        assert forall|i: int, j: int| 0 <= i < j < all.len() implies (
        #[trigger] all[i]).position() != (#[trigger] all[j]).position() by {
            if skips.contains(cells[0].position().0) {
                assert(all[i] == rest[i] && all[j] == rest[j]);
            } else {
                assert(all[j] == rest[j - 1]);
                if i > 0 {
                    assert(all[i] == rest[i - 1]);
                }
            }
        }
    }
}

proof fn lemma_skip_apart(cells: Seq<Cell<Data>>)
    requires
        apart(cells),
        cells.len() > 0,
    ensures
        apart(cells.skip(1)),
{
    let later = cells.skip(1);
    assert forall|i: int, j: int| 0 <= i < j < later.len() implies (
    #[trigger] later[i]).position() != (#[trigger] later[j]).position() by {
        assert(later[i] == cells[i + 1] && later[j] == cells[j + 1]);
    }
}

pub(crate) proof fn lemma_rest_apart(
    run: RunState,
    skips: Seq<u32>,
    batch_size: int,
    cells: Seq<Cell<Data>>,
)
    requires
        apart(cells),
    ensures
        apart(split(run, skips, batch_size, cells).rest),
    decreases cells.len(),
{
    if cells.len() > 0 {
        let (after, step) = run_step(run, skips, batch_size, cells[0].position().0);
        lemma_skip_apart(cells);
        lemma_rest_apart(after, skips, batch_size, cells.skip(1));
    }
}

/// The rows of a batch are counted by the numbers of its cells.
proof fn lemma_rows_counted(
    run: RunState,
    skips: Seq<u32>,
    batch_size: int,
    cells: Seq<Cell<Data>>,
)
    ensures
        ({
            let part = split(run, skips, batch_size, cells);
            part.run.count == (if part.taken.len() > 0 {
                part.taken.last().1 + 1
            } else if part.end is TooLong {
                part.run.count
            } else {
                run.count
            }) || part.end is TooLong
        }),
    decreases cells.len(),
{
    if cells.len() > 0 {
        let (after, step) = run_step(run, skips, batch_size, cells[0].position().0);
        let later = split(after, skips, batch_size, cells.skip(1));
        lemma_rows_counted(after, skips, batch_size, cells.skip(1));
        if let StepItem::Taken(row) = step {
            let taken = seq![(cells[0], row)] + later.taken;
            if later.taken.len() > 0 {
                assert(taken.last() == later.taken.last());
            }
        }
    }
}

pub(crate) proof fn lemma_batch_is_placed(
    run: RunState,
    skips: Seq<u32>,
    batch_size: int,
    cells: Seq<Cell<Data>>,
)
    requires
        run_fits(run, skips),
        !run.started,
        row_by_row(cells, run.floor),
        batch_size >= 1,
        apart(cells),
    ensures
        placed(split(run, skips, batch_size, cells).taken),
{
    let part = split(run, skips, batch_size, cells);
    let taken = part.taken;
    law_batch_takes_kept_cells(run, skips, batch_size, cells);
    law_rows_are_numbered(run, skips, batch_size, cells);
    lemma_kept_apart(cells, skips);
    let all = kept(cells, skips);
    assert forall|i: int, j: int| 0 <= i < j < taken.len() implies (#[trigger] taken[i]).1 <= (
    #[trigger] taken[j]).1 && (taken[i].1 == taken[j].1 ==> taken[i].0.position().1
        != taken[j].0.position().1) by {
        lemma_numbering(taken, i, j);
        assert(all == cells_of(taken) + kept(part.rest, skips));
        assert(all[i] == cells_of(taken)[i] && all[j] == cells_of(taken)[j]);
        assert(all[i].position() != all[j].position());
    }
    assert forall|i: int| 0 <= i < taken.len() implies 0 <= (#[trigger] taken[i]).1 by {
        lemma_numbering(taken, i, i);
    }
}

/// A whole sheet, cell after cell in the order of the rows: the frames hold the cells
/// of the rows that are not skipped, in order and each once; every frame but the last
/// has as many rows as a batch, the last at least one and at most as many; and there
/// are as many frames as these rows fill batches.
pub proof fn law_frames_of_a_sheet(
    run: RunState,
    state: ColsState,
    skips: Seq<u32>,
    batch_size: int,
    strings: Option<Seq<Seq<char>>>,
    cells: Seq<Cell<Data>>,
)
    requires
        run_fits(run, skips),
        !run.started,
        row_by_row(cells, run.floor),
        apart(cells),
        batch_size >= 1,
        cols_fit(state),
        forall|c: int| 0 <= c < state.cols.len() ==> (#[trigger] state.cols[c]).items.len() == 0,
    ensures
        ({
            let frames = frames_of(run, state, skips, batch_size, strings, cells);
            let batches = batches_of(run, skips, batch_size, cells);
            &&& cells_in(batches) == kept(cells, skips)
            &&& frames.len() == batches.len()
            &&& frames.len() == (rows_in(kept(cells, skips), None) + batch_size - 1) / batch_size
            &&& forall|k: int|
                #![trigger frames[k]]
                0 <= k < frames.len() ==> {
                    &&& holds(frames[k].cols, batches[k], strings)
                    &&& numbered_by_row(batches[k], None, 0)
                    &&& 1 <= longest(frames[k].cols) <= batch_size
                    &&& k < frames.len() - 1 ==> longest(frames[k].cols) == batch_size
                }
        }),
    decreases cells.len(),
{
    law_number_of_batches(run, skips, batch_size, cells);
    lemma_batches_counted(run, skips, batch_size, cells);
    law_batches_hold_all_kept_cells(run, skips, batch_size, cells);
    law_batch_takes_kept_cells(run, skips, batch_size, cells);
    law_rows_are_numbered(run, skips, batch_size, cells);
    lemma_full_batch_is_not_empty(run, skips, batch_size, cells);
    lemma_rows_of_batch(run, skips, batch_size, cells);
    lemma_batch_is_placed(run, skips, batch_size, cells);
    lemma_rows_counted(run, skips, batch_size, cells);
    let part = split(run, skips, batch_size, cells);
    lemma_batch_is_held(state, part.taken, strings);
    let frames = frames_of(run, state, skips, batch_size, strings, cells);
    let batches = batches_of(run, skips, batch_size, cells);
    let cols = cols_taken(state, part.taken, strings);
    if part.taken.len() > 0 {
        lemma_numbering(part.taken, 0, part.taken.len() - 1);
    }
    if part.end is Full {
        lemma_rest_apart(run, skips, batch_size, cells);
        let next = after_batch(part.run);
        law_frames_of_a_sheet(
            next,
            handed_out(cols),
            skips,
            batch_size,
            strings,
            part.rest,
        );
        let later = frames_of(next, handed_out(cols), skips, batch_size, strings, part.rest);
        let later_batches = batches_of(next, skips, batch_size, part.rest);
        assert(frames == seq![cols] + later);
        assert(batches == seq![part.taken] + later_batches);
        assert forall|k: int|
            #![trigger frames[k]]
            0 <= k < frames.len() implies {
            &&& holds(frames[k].cols, batches[k], strings)
            &&& numbered_by_row(batches[k], None, 0)
            &&& 1 <= longest(frames[k].cols) <= batch_size
            &&& k < frames.len() - 1 ==> longest(frames[k].cols) == batch_size
        } by {
            if k > 0 {
                assert(frames[k] == later[k - 1]);
                assert(batches[k] == later_batches[k - 1]);
            }
        }
    }
}

proof fn lemma_batches_counted(
    run: RunState,
    skips: Seq<u32>,
    batch_size: int,
    cells: Seq<Cell<Data>>,
)
    ensures
        batches_of(run, skips, batch_size, cells).len() == batch_total(
            run,
            skips,
            batch_size,
            cells,
        ),
        cells_in(batches_of(run, skips, batch_size, cells)) == all_batches(
            run,
            skips,
            batch_size,
            cells,
        ),
    decreases cells.len(),
{
    let part = split(run, skips, batch_size, cells);
    let batches = batches_of(run, skips, batch_size, cells);
    if part.end is Full && part.rest.len() < cells.len() {
        let next = after_batch(part.run);
        lemma_batches_counted(next, skips, batch_size, part.rest);
        assert(batches.skip(1) =~= batches_of(next, skips, batch_size, part.rest));
    } else if part.taken.len() > 0 {
        assert(batches.skip(1) =~= Seq::<Seq<(Cell<Data>, int)>>::empty());
        assert(cells_in(batches.skip(1)) =~= Seq::<Cell<Data>>::empty());
        assert(cells_in(batches) =~= cells_of(part.taken));
    } else {
        assert(cells_of(part.taken) =~= Seq::<Cell<Data>>::empty());
    }
}

/// Without a number of rows per batch a sheet is one frame: the rows of its used range, the
/// header left out, all fit in one batch, and there is none where they hold no cell that is
/// kept.
pub proof fn law_default_batch_holds_the_sheet(
    state: ColsState,
    skips: Seq<u32>,
    end_row: u32,
    has_header: bool,
    strings: Option<Seq<Seq<char>>>,
    cells: Seq<Cell<Data>>,
)
    requires
        row_by_row(
            cells,
            if has_header {
                1
            } else {
                0
            },
        ),
        forall|i: int| 0 <= i < cells.len() ==> (#[trigger] cells[i]).position().0 <= end_row,
        apart(cells),
        has_header ==> end_row >= 1,
        cols_fit(state),
        forall|c: int| 0 <= c < state.cols.len() ==> (#[trigger] state.cols[c]).items.len() == 0,
    ensures
        ({
            let size = rows_per_batch(None, end_row, has_header);
            let frames = frames_of(no_rows(), state, skips, size, strings, cells);
            &&& size >= 1
            &&& frames.len() == (if kept(cells, skips).len() > 0 {
                1int
            } else {
                0
            })
        }),
{
    let size = rows_per_batch(None, end_row, has_header);
    let low: int = if has_header {
        1
    } else {
        0
    };
    law_frames_of_a_sheet(no_rows(), state, skips, size, strings, cells);
    lemma_kept_rows(cells, skips, low, end_row);
    let rows = kept(cells, skips);
    lemma_rows_fit(rows, None, low, end_row);
    let n = rows_in(rows, None);
    if rows.len() > 0 {
        assert(n >= 1) by {
            lemma_rows_not_negative(rows.skip(1), Some(rows[0].position().0));
        }
        assert((n + size - 1) / size == 1) by {
            vstd::arithmetic::div_mod::lemma_fundamental_div_mod_converse(
                n + size - 1,
                size,
                1,
                n - 1,
            );
        }
    } else {
        assert(n == 0);
        assert((size - 1) / size == 0) by {
            vstd::arithmetic::div_mod::lemma_fundamental_div_mod_converse(size - 1, size, 0, size - 1);
        }
    }
}

proof fn lemma_rows_not_negative(cells: Seq<Cell<Data>>, last: Option<u32>)
    ensures
        0 <= rows_in(cells, last),
    decreases cells.len(),
{
    if cells.len() > 0 {
        lemma_rows_not_negative(cells.skip(1), Some(cells[0].position().0));
    }
}

/// The cells that are kept come row by row where all do.
proof fn lemma_kept_rows(cells: Seq<Cell<Data>>, skips: Seq<u32>, low: int, high: u32)
    requires
        forall|i: int|
            0 <= i < cells.len() ==> low <= (#[trigger] cells[i]).position().0 <= high,
        forall|i: int, j: int|
            0 <= i <= j < cells.len() ==> (#[trigger] cells[i]).position().0 <= (
            #[trigger] cells[j]).position().0,
    ensures
        forall|i: int|
            0 <= i < kept(cells, skips).len() ==> low <= (#[trigger] kept(
                cells,
                skips,
            )[i]).position().0 <= high,
        forall|i: int, j: int|
            0 <= i <= j < kept(cells, skips).len() ==> (#[trigger] kept(
                cells,
                skips,
            )[i]).position().0 <= (#[trigger] kept(cells, skips)[j]).position().0,
    decreases cells.len(),
{
    if cells.len() > 0 {
        let later = cells.skip(1);
        let first = cells[0].position().0;
        assert forall|i: int| 0 <= i < later.len() implies first <= (
        #[trigger] later[i]).position().0 <= high by {
            assert(later[i] == cells[i + 1]);
            assert(cells[0].position().0 <= cells[i + 1].position().0);
        }
        assert forall|i: int, j: int| 0 <= i <= j < later.len() implies (
        #[trigger] later[i]).position().0 <= (#[trigger] later[j]).position().0 by {
            assert(later[i] == cells[i + 1] && later[j] == cells[j + 1]);
        }
        lemma_kept_rows(later, skips, first as int, high);
        let rest = kept(later, skips);
        let all = kept(cells, skips);
        assert(low <= first <= high);
        if !skips.contains(first) {
            assert(all == seq![cells[0]] + rest);
            assert forall|i: int| 0 <= i < all.len() implies low <= (
            #[trigger] all[i]).position().0 <= high by {
                if i > 0 {
                    assert(all[i] == rest[i - 1]);
                }
            }
            assert forall|i: int, j: int| 0 <= i <= j < all.len() implies (
            #[trigger] all[i]).position().0 <= (#[trigger] all[j]).position().0 by {
                if i > 0 {
                    assert(all[i] == rest[i - 1] && all[j] == rest[j - 1]);
                } else if j > 0 {
                    assert(all[j] == rest[j - 1]);
                }
            }
        }
    }
}

/// Cells that come row by row lie in no more rows than there are.
proof fn lemma_rows_fit(cells: Seq<Cell<Data>>, last: Option<u32>, low: int, high: u32)
    requires
        low <= high + 1,
        forall|i: int|
            0 <= i < cells.len() ==> (#[trigger] cells[i]).position().0 <= high && (
            cells[i].position().0 >= low || last == Some(cells[i].position().0)),
        forall|i: int, j: int|
            0 <= i <= j < cells.len() ==> (#[trigger] cells[i]).position().0 <= (
            #[trigger] cells[j]).position().0,
        last matches Some(row) ==> row < low,
    ensures
        rows_in(cells, last) <= high + 1 - low,
    decreases cells.len(),
{
    if cells.len() > 0 {
        let row = cells[0].position().0;
        let later = cells.skip(1);
        let next = if last == Some(row) {
            low
        } else {
            row + 1
        };
        assert forall|i: int| 0 <= i < later.len() implies (#[trigger] later[i]).position().0
            <= high && (later[i].position().0 >= next || later[i].position().0 == row) by {
            assert(later[i] == cells[i + 1]);
            assert(cells[0].position().0 <= cells[i + 1].position().0);
        }
        assert forall|i: int, j: int| 0 <= i <= j < later.len() implies (
        #[trigger] later[i]).position().0 <= (#[trigger] later[j]).position().0 by {
            assert(later[i] == cells[i + 1] && later[j] == cells[j + 1]);
        }
        lemma_rows_fit(later, Some(row), next, high);
    }
}

} // verus!
