use vstd::prelude::*;

use core::ops::{Range, RangeFrom, RangeFull, RangeInclusive, RangeTo, RangeToInclusive};

use crate::piece_table::{EditError, PieceTable};

verus! {

#[verifier::external_type_specification]
pub struct ExRangeFrom<Idx>(RangeFrom<Idx>);

#[verifier::external_type_specification]
pub struct ExRangeTo<Idx>(RangeTo<Idx>);

#[verifier::external_type_specification]
pub struct ExRangeToInclusive<Idx>(RangeToInclusive<Idx>);

#[verifier::external_type_specification]
pub struct ExRangeFull(RangeFull);

/// Relies on `RangeInclusive::start`: the lower bound the range was built with.
pub assume_specification<Idx>[ RangeInclusive::<Idx>::start ](r: &RangeInclusive<Idx>) -> (s: &Idx)
    ensures
        *s == r@.start,
;

/// Relies on `RangeInclusive::end`: the upper bound the range was built with.
pub assume_specification<Idx>[ RangeInclusive::<Idx>::end ](r: &RangeInclusive<Idx>) -> (e: &Idx)
    ensures
        *e == r@.end,
;

/// Reading a part of the document by a range of character positions.
pub trait PieceTableSlice<T> {
    /// The table can be read.
    spec fn readable(&self) -> bool;

    /// The characters the range selects; fails as `PieceTable::slice_between` does.
    fn slice(&self, index: T) -> Result<String, EditError>
        requires
            self.readable(),
    ;
}

impl PieceTableSlice<Range<usize>> for PieceTable {
    open spec fn readable(&self) -> bool {
        self.wf()
    }

    /// The characters from `start` up to, not including, `end`.
    fn slice(&self, index: Range<usize>) -> (r: Result<String, EditError>)
        ensures
            self.sliced(index.start as int, index.end as int, r),
    {
        self.slice_between(index.start, index.end)
    }
}

impl PieceTableSlice<RangeFrom<usize>> for PieceTable {
    open spec fn readable(&self) -> bool {
        self.wf()
    }

    /// The characters from `start` to the end of the document.
    fn slice(&self, index: RangeFrom<usize>) -> (r: Result<String, EditError>)
        ensures
            self.sliced(index.start as int, self@.length as int, r),
    {
        let length = self.len();
        self.slice_between(index.start, length)
    }
}

impl PieceTableSlice<RangeFull> for PieceTable {
    open spec fn readable(&self) -> bool {
        self.wf()
    }

    /// The whole document; fails with `InvalidRange` on an empty one (prefer
    /// `PieceTable::to_string`).
    fn slice(&self, index: RangeFull) -> (r: Result<String, EditError>)
        ensures
            self.sliced(0, self@.length as int, r),
    {
        let length = self.len();
        self.slice_between(0, length)
    }
}

impl PieceTableSlice<RangeInclusive<usize>> for PieceTable {
    open spec fn readable(&self) -> bool {
        self.wf()
    }

    /// The characters from `start` up to and including `end`; an `end` of
    /// `usize::MAX` lies past any document and fails with `OutOfRange`.
    fn slice(&self, index: RangeInclusive<usize>) -> (r: Result<String, EditError>)
        ensures
            self.sliced(index@.start as int, index@.end + 1, r),
    {
        let start = *index.start();
        let end = *index.end();
        if end == usize::MAX {
            return Err(EditError::OutOfRange);
        }
        self.slice_between(start, end + 1)
    }
}

impl PieceTableSlice<RangeTo<usize>> for PieceTable {
    open spec fn readable(&self) -> bool {
        self.wf()
    }

    /// The characters from the start of the document up to, not including, `end`.
    fn slice(&self, index: RangeTo<usize>) -> (r: Result<String, EditError>)
        ensures
            self.sliced(0, index.end as int, r),
    {
        self.slice_between(0, index.end)
    }
}

impl PieceTableSlice<RangeToInclusive<usize>> for PieceTable {
    open spec fn readable(&self) -> bool {
        self.wf()
    }

    /// The characters from the start of the document up to and including `end`;
    /// an `end` of `usize::MAX` fails with `OutOfRange`.
    fn slice(&self, index: RangeToInclusive<usize>) -> (r: Result<String, EditError>)
        ensures
            self.sliced(0, index.end + 1, r),
    {
        if index.end == usize::MAX {
            return Err(EditError::OutOfRange);
        }
        self.slice_between(0, index.end + 1)
    }
}

} // verus!
