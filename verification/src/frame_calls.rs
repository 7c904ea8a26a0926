//! Asking for the batches of a sheet call after call: what the calls hand out, and how
//! many batches are told to come before each.

use crate::df_iter::{
    any_entry, cols_taken, data_cells, every_row_has_a_cell, first_data_row, fresh_cols, has_row,
    header_call, header_run, is_next_frame, kept, law_batch_takes_kept_cells,
    law_batches_come_as_told, law_header_takes_the_first_row, law_number_of_batches,
    lemma_rows_of_batch, listed_once, next_call, no_header, no_rows, numbered_by_row, row_by_row,
    rows_left, run_fits, split, DataFrameIter, HeaderNext, HeaderPhase, Next,
};
use crate::excel_types::{Cell, Data};
use crate::frame_run::{
    apart, batches_of, cells_in, holds, law_frames_of_a_sheet, lemma_batch_is_held,
    lemma_batch_is_placed, lemma_rest_apart,
};
use crate::series::series_fits;
use crate::typed_cols::{cols_fit, longest, ColsState};
use vstd::prelude::*;

verus! {

/// Whether a sheet is ready to be handed out: the header is read, all cells are
/// supplied, in the order of the rows and no two in one place, and no batch is begun.
pub open spec fn ready(iter: DataFrameIter) -> bool {
    &&& iter.header_state().phase == HeaderPhase::Done
    &&& iter.is_closed()
    &&& iter.pending_failure() is None
    &&& iter.batch_size() >= 1
    &&& run_fits(iter.run(), iter.skips())
    &&& !iter.run().started
    &&& row_by_row(iter.upcoming(), iter.run().floor)
    &&& apart(iter.upcoming())
    &&& cols_fit(iter.state())
    &&& forall|c: int|
        0 <= c < iter.state().cols.len() ==> (
        #[trigger] iter.state().cols[c]).items.len() == 0
}

/// A call on a sheet that is ready leaves it ready. It hands out the first frame that
/// is due and leaves the others, or tells the end where none is; and it takes one from
/// the number of batches that is told to come, where that is right.
pub proof fn law_call_leaves_the_sheet_ready(
    before: DataFrameIter,
    next: Next,
    after: DataFrameIter,
)
    requires
        ready(before),
        next_call(before, next, after),
    ensures
        ready(after),
        before.frames().len() == 0 ==> next is End && after.frames().len() == 0,
        before.frames().len() > 0 ==> is_next_frame(next, before.frames()[0], before.headers())
            && after.frames() == before.frames().skip(1),
        before.batches() == before.frames().len() ==> after.batches() == after.frames().len(),
{
    let (run, skips, size) = (before.run(), before.skips(), before.batch_size());
    let cells = before.upcoming();
    let part = split(run, skips, size, cells);
    let cols = cols_taken(before.state(), part.taken, before.texts());
    law_batch_takes_kept_cells(run, skips, size, cells);
    lemma_rows_of_batch(run, skips, size, cells);
    lemma_batch_is_placed(run, skips, size, cells);
    lemma_batch_is_held(before.state(), part.taken, before.texts());
    lemma_rest_apart(run, skips, size, cells);
    if part.taken.len() == 0 {
        assert(cols == before.state());
        assert(part.rest =~= Seq::<Cell<Data>>::empty());
        assert(!any_entry(cols));
        let again = split(after.run(), skips, size, after.upcoming());
        assert(again.taken.len() == 0);
        assert(after.frames().len() == 0);
    }
}

/// Call after call on a sheet that is ready, as many calls as there are results: the
/// first results are the frames of the sheet, in order, which hold the cells of the rows
/// that are not skipped, each once; every later result is the end. Before each call as
/// many batches are told to come as frames are still due, if this is so before the first.
pub proof fn law_calls_hand_out_the_frames(iters: Seq<DataFrameIter>, nexts: Seq<Next>)
    requires
        iters.len() == nexts.len() + 1,
        ready(iters[0]),
        forall|k: int|
            #![trigger nexts[k]]
            0 <= k < nexts.len() ==> next_call(iters[k], nexts[k], iters[k + 1]),
    ensures
        ({
            let first = iters[0];
            let frames = first.frames();
            let batches = batches_of(
                first.run(),
                first.skips(),
                first.batch_size(),
                first.upcoming(),
            );
            &&& cells_in(batches) == kept(first.upcoming(), first.skips())
            &&& frames.len() == batches.len()
            &&& forall|k: int|
                #![trigger nexts[k]]
                0 <= k < nexts.len() ==> if k < frames.len() {
                    &&& is_next_frame(nexts[k], frames[k], first.headers())
                    &&& series_fits(first.batch_size()) ==> nexts[k] is Frame
                    &&& holds(frames[k].cols, batches[k], first.texts())
                    &&& numbered_by_row(batches[k], None, 0)
                } else {
                    nexts[k] is End
                }
            &&& first.batches() == frames.len() ==> forall|k: int|
                #![trigger iters[k]]
                0 <= k < iters.len() ==> iters[k].batches() == (if k < frames.len() {
                    frames.len() - k
                } else {
                    0
                })
        }),
{
    let first = iters[0];
    let frames = first.frames();
    law_frames_of_a_sheet(
        first.run(),
        first.state(),
        first.skips(),
        first.batch_size(),
        first.texts(),
        first.upcoming(),
    );
    assert forall|k: int|
        #![trigger nexts[k]]
        0 <= k < nexts.len() implies if k < frames.len() {
        &&& is_next_frame(nexts[k], frames[k], first.headers())
        &&& series_fits(first.batch_size()) ==> nexts[k] is Frame
    } else {
        nexts[k] is End
    } by {
        lemma_calls(iters, nexts, k);
        law_call_leaves_the_sheet_ready(iters[k], nexts[k], iters[k + 1]);
        if k < frames.len() {
            assert(iters[k].frames()[0] == frames[k]);
            assert(longest(frames[k].cols) <= first.batch_size());
        }
    }
    assert forall|k: int|
        #![trigger iters[k]]
        0 <= k < iters.len() && first.batches() == frames.len() implies iters[k].batches() == (if k
        < frames.len() {
        frames.len() - k
    } else {
        0
    }) by {
        lemma_calls(iters, nexts, k);
    }
}

proof fn lemma_calls(iters: Seq<DataFrameIter>, nexts: Seq<Next>, k: int)
    requires
        iters.len() == nexts.len() + 1,
        ready(iters[0]),
        0 <= k < iters.len(),
        forall|j: int|
            #![trigger nexts[j]]
            0 <= j < nexts.len() ==> next_call(iters[j], nexts[j], iters[j + 1]),
    ensures
        ready(iters[k]),
        iters[k].headers() == iters[0].headers(),
        iters[k].frames() == (if k < iters[0].frames().len() {
            iters[0].frames().skip(k)
        } else {
            Seq::empty()
        }),
        iters[0].batches() == iters[0].frames().len() ==> iters[k].batches()
            == iters[k].frames().len(),
    decreases k,
{
    let frames = iters[0].frames();
    if k == 0 {
        if frames.len() == 0 {
            assert(frames =~= Seq::<ColsState>::empty());
        } else {
            assert(frames.skip(0) =~= frames);
        }
    } else {
        lemma_calls(iters, nexts, k - 1);
        assert(next_call(iters[k - 1], nexts[k - 1], iters[k]));
        law_call_leaves_the_sheet_ready(iters[k - 1], nexts[k - 1], iters[k]);
        if k - 1 < frames.len() {
            if k < frames.len() {
                assert(frames.skip(k - 1).skip(1) =~= frames.skip(k));
            } else {
                assert(frames.skip(k - 1).skip(1) =~= Seq::<ColsState>::empty());
            }
        } else {
            assert(iters[k].frames() =~= Seq::<ColsState>::empty());
        }
    }
}

/// A sheet whose cells are all supplied, in the order of the rows and no two in one
/// place, is ready once its header is read. Where every row from that of the first cell
/// to the end of the used range has a cell, and no row to be skipped is listed twice, as
/// many batches are then told to come as frames are due.
pub proof fn law_told_batches_are_due(
    before: DataFrameIter,
    next: HeaderNext,
    after: DataFrameIter,
)
    requires
        before.header_state() == no_header(),
        before.run() == no_rows(),
        before.is_closed(),
        before.pending_failure() is None,
        before.batch_size() >= 1,
        row_by_row(before.upcoming(), 0),
        apart(before.upcoming()),
        before.state() == fresh_cols(before.context().end.1),
        header_call(before, next, after),
    ensures
        next is Done,
        ready(after),
        ({
            let cells = before.upcoming();
            let first = cells[0].position().0;
            let end = before.context().end.0;
            &&& cells.len() > 0
            &&& first <= end < u32::MAX
            &&& every_row_has_a_cell(cells, first as int, end)
            &&& listed_once(before.skips())
            &&& rows_left(before.context(), first) + before.batch_size() - 1 <= usize::MAX
        }) ==> after.batches() == after.frames().len(),
{
    let cells = before.upcoming();
    let context = before.context();
    let (reached, rest) = header_run(no_header(), context, cells);
    let data = data_cells(reached, rest);
    if cells.len() == 0 {
        assert(data =~= cells);
    } else {
        law_header_takes_the_first_row(context, cells);
        let taken = cells.len() - data.len();
        let first = cells[0].position().0;
        assert forall|i: int| 0 <= i < data.len() implies 0 <= (
        #[trigger] data[i]).position().0 && crate::typed_col::data_fits(data[i].value()) by {
            assert(data[i] == cells[i + taken]);
        }
        assert forall|i: int, j: int| 0 <= i <= j < data.len() implies (
        #[trigger] data[i]).position().0 <= (#[trigger] data[j]).position().0 by {
            assert(data[i] == cells[i + taken] && data[j] == cells[j + taken]);
        }
        assert(apart(data)) by {
            assert forall|i: int, j: int| 0 <= i < j < data.len() implies (
            #[trigger] data[i]).position() != (#[trigger] data[j]).position() by {
                assert(data[i] == cells[i + taken] && data[j] == cells[j + taken]);
            }
        }
        let end = context.end.0;
        if first <= end < u32::MAX && every_row_has_a_cell(cells, first as int, end)
            && listed_once(before.skips()) && rows_left(context, first) + before.batch_size() - 1
            <= usize::MAX {
            let low = first_data_row(context, first);
            assert(every_row_has_a_cell(data, low, end)) by {
                assert forall|i: int| 0 <= i < data.len() implies low <= (
                #[trigger] data[i]).position().0 <= end by {
                    assert(data[i] == cells[i + taken]);
                }
                assert forall|row: u32| low <= row <= end implies #[trigger] has_row(data, row) by {
                    assert(has_row(cells, row));
                    let i = choose|i: int|
                        0 <= i < cells.len() && (#[trigger] cells[i]).position().0 == row;
                    assert(data[i - taken] == cells[i]);
                }
            }
            law_batches_come_as_told(context, first, before.run(), data);
            law_number_of_batches(before.run(), context.skips, context.batch_size, data);
            law_frames_of_a_sheet(
                after.run(),
                after.state(),
                after.skips(),
                after.batch_size(),
                after.texts(),
                data,
            );
        }
    }
}

/// A failure that the cells end with comes once, in place of the batch that they do not fill:
/// the batches that they fill come before it.
pub proof fn law_failure_comes_once(before: DataFrameIter, next: Next, after: DataFrameIter)
    requires
        next_call(before, next, after),
        before.is_closed(),
        before.pending_failure() is Some,
        row_by_row(before.upcoming(), before.run().floor),
        run_fits(before.run(), before.skips()),
        !before.run().started,
        before.batch_size() >= 1,
    ensures
        ({
            let part = split(
                before.run(),
                before.skips(),
                before.batch_size(),
                before.upcoming(),
            );
            &&& part.run.count < before.batch_size() || after.upcoming().len() == 0 ==> (
            next matches Next::Failed(e) && Some(e@) == before.pending_failure()
                && after.pending_failure() is None)
            &&& after.upcoming().len() > 0 ==> part.run.count == before.batch_size()
                && after.pending_failure() == before.pending_failure()
        }),
{
    let (run, skips, size) = (before.run(), before.skips(), before.batch_size());
    law_batch_takes_kept_cells(run, skips, size, before.upcoming());
    lemma_rows_of_batch(run, skips, size, before.upcoming());
}

} // verus!
