//! What every reader of a worksheet offers.

use crate::error::{Failure, XlsxError};
use crate::excel_types::Dimensions;
use crate::sheet_parser::{RawCell, RawCellItem};
use crate::utils::corners;
use vstd::prelude::*;

verus! {

/// What a reader hands out, as contracts speak of it.
pub open spec fn read_item(cell: Result<Option<RawCell>, XlsxError>) -> Result<
    Option<RawCellItem>,
    Failure,
> {
    match cell {
        Ok(Some(c)) => Ok(Some(c@)),
        Ok(None) => Ok(None),
        Err(e) => Err(e@),
    }
}

/// A reader that hands out the cells of a worksheet one by one.
pub trait StreamReader: Sized {
    /// Whether the reader is in a state that it can go on from.
    spec fn ready(&self) -> bool;

    /// The corners of the used range that the worksheet states.
    spec fn range(&self) -> ((int, int), (int, int));

    /// What the reader hands out next: a cell, `None` after the last one, or why the
    /// worksheet cannot be read on.
    spec fn upcoming(&self) -> Result<Option<RawCellItem>, Failure>;

    /// The used range that the worksheet states.
    fn dimensions(&self) -> (dimensions: Dimensions)
        ensures
            corners(dimensions) == self.range(),
    ;

    /// The next cell, `None` after the last one.
    fn next_cell(&mut self) -> (cell: Result<Option<RawCell>, XlsxError>)
        requires
            old(self).ready(),
        ensures
            final(self).ready(),
            read_item(cell) == old(self).upcoming(),
    ;
}

} // verus!
