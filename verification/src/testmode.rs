//! Trying out the reader.

use vstd::prelude::*;

verus! {

/// What to try out.
#[derive(Debug, Clone, Copy, PartialEq, Eq, Hash, Structural)]
pub enum TestMod {
    /// Show the first batches and the time.
    Debug,
    /// Count the batches and show the time.
    Count,
    /// Write a workbook to try the reader on.
    TestFile,
}

/// How many batches of a sheet are read: all, or ten at most.
pub open spec fn read_of(total: usize, no_limit: bool) -> usize {
    if no_limit || total <= 10 {
        total
    } else {
        10
    }
}

/// Whether batch `count`, counted from 1, is shown.
pub open spec fn is_shown(count: usize) -> bool {
    count <= 10
}

/// Without a limit all batches are read, and with one all but those behind the tenth; the
/// batches that are shown are those that are read with a limit, however many there are.
pub proof fn law_ten_batches(total: usize, count: usize)
    requires
        1 <= count <= total,
    ensures
        read_of(total, true) == total,
        read_of(total, false) <= total,
        read_of(total, false) < total ==> read_of(total, false) == 10,
        read_of(total, false) <= 10,
        is_shown(count) <==> count <= read_of(total, false),
{
}

/// How many batches of a sheet are read: all, or ten at most.
pub fn batches_read(total: usize, no_limit: bool) -> (n: usize)
    ensures
        n == read_of(total, no_limit),
{
    if no_limit || total <= 10 {
        total
    } else {
        10
    }
}

/// Whether batch `count`, counted from 1, is shown: the first ten are.
pub fn batch_shown(count: usize) -> (shown: bool)
    ensures
        shown == is_shown(count),
{
    count <= 10
}

} // verus!
