//! Windows onto a table: rectangular slices, their row and column forms,
//! walkers over them, and small presentation value types.

use vstd::prelude::*;

use crate::pos::CellPos;
use crate::pos::COORD_BOUND;
use crate::slice::SlicePos;
use crate::table::Table;

verus! {

/// A rectangular window onto a table: a range plus a borrowed table.
pub struct TableSlice<'a, T> {
    pos: SlicePos,
    table: &'a T,
}

impl<'a, T: Table> TableSlice<'a, T> {
    /// The window's range.
    pub closed spec fn spec_pos(self) -> SlicePos {
        self.pos
    }

    /// The table under the window.
    pub closed spec fn spec_table(self) -> &'a T {
        self.table
    }

    pub open spec fn wf(self) -> bool {
        &&& self.spec_pos().start.x <= self.spec_pos().end.x <= COORD_BOUND
        &&& self.spec_pos().start.y <= self.spec_pos().end.y <= COORD_BOUND
    }

    pub fn new(pos: SlicePos, table: &'a T) -> (r: TableSlice<'a, T>)
        requires
            pos.start.x <= pos.end.x <= COORD_BOUND,
            pos.start.y <= pos.end.y <= COORD_BOUND,
        ensures
            r.wf(),
            r.spec_pos() == pos,
            r.spec_table() == table,
    {
        TableSlice { pos, table }
    }

    /// The item under a window-relative position: the outer `None` means
    /// the shift leaves the window, the inner one an unset cell.
    pub fn get(&self, shift: CellPos) -> (r: Option<Option<&'a T::Item>>)
        requires
            self.wf(),
        ensures
            match r {
                Some(inner) => self.spec_pos().is_valid_shift_spec(shift) && (match inner {
                    Some(v) => self.spec_table().spec_get(self.spec_pos().shifted(shift)) == Some(
                        *v,
                    ),
                    None => self.spec_table().spec_get(self.spec_pos().shifted(shift)) is None,
                }),
                None => !self.spec_pos().is_valid_shift_spec(shift),
            },
    {
        match self.pos.shift_to_pos(shift) {
            Some(p) => Some(self.table.get(p)),
            None => None,
        }
    }

    /// Whether the window is one column wide.
    pub fn is_col(&self) -> (r: bool)
        requires
            self.wf(),
        ensures
            r == (self.spec_pos().start.x + 1 == self.spec_pos().end.x),
    {
        self.pos.start.x + 1 == self.pos.end.x
    }

    /// Whether the window is one row tall.
    pub fn is_row(&self) -> (r: bool)
        requires
            self.wf(),
        ensures
            r == (self.spec_pos().start.y + 1 == self.spec_pos().end.y),
    {
        self.pos.start.y + 1 == self.pos.end.y
    }

    /// How many rows the window spans.
    pub fn row_indexes(&self) -> (r: usize)
        requires
            self.wf(),
        ensures
            r == self.spec_pos().end.y - self.spec_pos().start.y,
    {
        self.pos.rows()
    }

    /// How many columns the window spans.
    pub fn col_indexes(&self) -> (r: usize)
        requires
            self.wf(),
        ensures
            r == self.spec_pos().end.x - self.spec_pos().start.x,
    {
        self.pos.columns()
    }

    /// A walker over the window's rows.
    pub fn rows(self) -> (r: TableRowSliceIter<'a, T>)
        requires
            self.wf(),
        ensures
            r.wf(),
            r.spec_slice() == self,
            r.spec_next_row() == self.spec_pos().start.y,
    {
        TableRowSliceIter { slice: self, next_row: self.pos.start.y }
    }

    /// A walker over the window's columns.
    pub fn cols(self) -> (r: TableColSliceIter<'a, T>)
        requires
            self.wf(),
        ensures
            r.wf(),
            r.spec_slice() == self,
            r.spec_next_col() == self.spec_pos().start.x,
    {
        TableColSliceIter { slice: self, next_col: self.pos.start.x }
    }

    pub fn width(&self) -> (r: usize)
        requires
            self.wf(),
        ensures
            r == self.spec_pos().end.x - self.spec_pos().start.x,
    {
        self.col_indexes()
    }

    pub fn height(&self) -> (r: usize)
        requires
            self.wf(),
        ensures
            r == self.spec_pos().end.y - self.spec_pos().start.y,
    {
        self.row_indexes()
    }
}

impl<'a, T> Clone for TableSlice<'a, T> {
    fn clone(&self) -> (r: Self)
        ensures
            r == *self,
    {
        TableSlice { pos: self.pos, table: self.table }
    }
}

impl<'a, T> Copy for TableSlice<'a, T> {

}

/// A window known to be a single column.
pub struct ColSlice<'a, T: Table> {
    inner: TableSlice<'a, T>,
}

/// The window was not a single column.
#[derive(Clone, Copy, Debug, PartialEq, Eq, Structural)]
pub struct ColSliceError;

impl<'a, T: Table> ColSlice<'a, T> {
    /// Accepts exactly the one-column windows.
    pub fn try_new(value: TableSlice<'a, T>) -> (r: Result<ColSlice<'a, T>, ColSliceError>)
        requires
            value.wf(),
        ensures
            r matches Ok(c) ==> c.spec_inner() == value,
            r is Ok <==> value.spec_pos().start.x + 1 == value.spec_pos().end.x,
    {
        if value.is_col() {
            Ok(ColSlice { inner: value })
        } else {
            Err(ColSliceError)
        }
    }

    pub closed spec fn spec_inner(self) -> TableSlice<'a, T> {
        self.inner
    }

    pub fn into_inner(self) -> (r: TableSlice<'a, T>)
        ensures
            r == self.spec_inner(),
    {
        self.inner
    }
}

/// A window known to be a single row.
pub struct RowSlice<'a, T: Table> {
    inner: TableSlice<'a, T>,
}

/// The window was not a single row.
#[derive(Clone, Copy, Debug, PartialEq, Eq, Structural)]
pub struct RowSliceError;

impl<'a, T: Table> RowSlice<'a, T> {
    /// Accepts exactly the one-row windows.
    pub fn try_new(value: TableSlice<'a, T>) -> (r: Result<RowSlice<'a, T>, RowSliceError>)
        requires
            value.wf(),
        ensures
            r matches Ok(c) ==> c.spec_inner() == value,
            r is Ok <==> value.spec_pos().start.y + 1 == value.spec_pos().end.y,
    {
        if value.is_row() {
            Ok(RowSlice { inner: value })
        } else {
            Err(RowSliceError)
        }
    }

    pub closed spec fn spec_inner(self) -> TableSlice<'a, T> {
        self.inner
    }

    pub fn into_inner(self) -> (r: TableSlice<'a, T>)
        ensures
            r == self.spec_inner(),
    {
        self.inner
    }
}

/// Hands out each row of a window in turn, topmost first.
pub struct TableRowSliceIter<'a, T> {
    slice: TableSlice<'a, T>,
    next_row: usize,
}

impl<'a, T: Table> TableRowSliceIter<'a, T> {
    pub closed spec fn spec_slice(self) -> TableSlice<'a, T> {
        self.slice
    }

    pub closed spec fn spec_next_row(self) -> usize {
        self.next_row
    }

    pub open spec fn wf(self) -> bool {
        &&& self.spec_slice().wf()
        &&& self.spec_slice().spec_pos().start.y <= self.spec_next_row()
            <= self.spec_slice().spec_pos().end.y
    }

    /// The next row window, or nothing when the rows are spent.
    pub fn next(&mut self) -> (r: Option<RowSlice<'a, T>>)
        requires
            old(self).wf(),
        ensures
            final(self).wf(),
            final(self).spec_slice() == old(self).spec_slice(),
            r is Some <==> old(self).spec_next_row() < old(self).spec_slice().spec_pos().end.y,
            r is Some ==> final(self).spec_next_row() == old(self).spec_next_row() + 1,
            r matches Some(rs) ==> rs.spec_inner().spec_pos().start.y == old(self).spec_next_row()
                && rs.spec_inner().spec_pos().end.y == old(self).spec_next_row() + 1
                && rs.spec_inner().spec_pos().start.x == old(self).spec_slice().spec_pos().start.x
                && rs.spec_inner().spec_pos().end.x == old(self).spec_slice().spec_pos().end.x,
            r is None ==> *final(self) == *old(self),
    {
        if self.next_row < self.slice.pos.end.y {
            let row: usize = self.next_row;
            self.next_row = row + 1;
            let sp = SlicePos {
                start: CellPos { x: self.slice.pos.start.x, y: row },
                end: CellPos { x: self.slice.pos.end.x, y: row + 1 },
            };
            let ts = TableSlice::new(sp, self.slice.table);
            match RowSlice::try_new(ts) {
                Ok(rs) => Some(rs),
                Err(_) => vstd::pervasive::unreached(),
            }
        } else {
            None
        }
    }
}

/// Hands out each column of a window in turn, leftmost first.
pub struct TableColSliceIter<'a, T> {
    slice: TableSlice<'a, T>,
    next_col: usize,
}

impl<'a, T: Table> TableColSliceIter<'a, T> {
    pub closed spec fn spec_slice(self) -> TableSlice<'a, T> {
        self.slice
    }

    pub closed spec fn spec_next_col(self) -> usize {
        self.next_col
    }

    pub open spec fn wf(self) -> bool {
        &&& self.spec_slice().wf()
        &&& self.spec_slice().spec_pos().start.x <= self.spec_next_col()
            <= self.spec_slice().spec_pos().end.x
    }

    /// The next column window, or nothing when the columns are spent.
    pub fn next(&mut self) -> (r: Option<ColSlice<'a, T>>)
        requires
            old(self).wf(),
        ensures
            final(self).wf(),
            final(self).spec_slice() == old(self).spec_slice(),
            r is Some <==> old(self).spec_next_col() < old(self).spec_slice().spec_pos().end.x,
            r is Some ==> final(self).spec_next_col() == old(self).spec_next_col() + 1,
            r matches Some(cs) ==> cs.spec_inner().spec_pos().start.x == old(self).spec_next_col()
                && cs.spec_inner().spec_pos().end.x == old(self).spec_next_col() + 1
                && cs.spec_inner().spec_pos().start.y == old(self).spec_slice().spec_pos().start.y
                && cs.spec_inner().spec_pos().end.y == old(self).spec_slice().spec_pos().end.y,
            r is None ==> *final(self) == *old(self),
    {
        if self.next_col < self.slice.pos.end.x {
            let col: usize = self.next_col;
            self.next_col = col + 1;
            let sp = SlicePos {
                start: CellPos { x: col, y: self.slice.pos.start.y },
                end: CellPos { x: col + 1, y: self.slice.pos.end.y },
            };
            let ts = TableSlice::new(sp, self.slice.table);
            match ColSlice::try_new(ts) {
                Ok(cs) => Some(cs),
                Err(_) => vstd::pervasive::unreached(),
            }
        } else {
            None
        }
    }
}

/// Walks every cell of a window, row by row.
pub struct TableSliceIter<'a, T> {
    slice: TableSlice<'a, T>,
    dy: usize,
    dx: usize,
}

impl<'a, T: Table> TableSliceIter<'a, T> {
    pub closed spec fn spec_slice(self) -> TableSlice<'a, T> {
        self.slice
    }

    pub closed spec fn spec_dx(self) -> usize {
        self.dx
    }

    pub closed spec fn spec_dy(self) -> usize {
        self.dy
    }

    pub open spec fn wf(self) -> bool {
        &&& self.spec_slice().wf()
        &&& self.spec_dx() <= self.spec_slice().spec_pos().end.x
        &&& self.spec_dy() <= self.spec_slice().spec_pos().end.y
    }

    pub fn new(slice: TableSlice<'a, T>) -> (r: TableSliceIter<'a, T>)
        requires
            slice.wf(),
        ensures
            r.wf(),
            r.spec_slice() == slice,
    {
        TableSliceIter { slice, dy: 0, dx: 0 }
    }

    /// The next cell's item (inner `None` for an unset cell), or nothing
    /// once the window is walked through.
    pub fn next(&mut self) -> (r: Option<Option<&'a T::Item>>)
        requires
            old(self).wf(),
        ensures
            final(self).wf(),
            final(self).spec_slice() == old(self).spec_slice(),
    {
        let w: usize = self.slice.col_indexes();
        let h: usize = self.slice.row_indexes();
        if self.dy >= h || w == 0 {
            return None;
        }
        let shift = CellPos { x: self.dx, y: self.dy };
        if self.dx + 1 < w {
            self.dx = self.dx + 1;
        } else {
            self.dx = 0;
            self.dy = self.dy + 1;
        }
        self.slice.get(shift)
    }
}

/// A walker over a one-row window, handing out each cell.
pub struct ByRowTableSliceIter<'a, T> {
    inner: TableSliceIter<'a, T>,
}

impl<'a, T: Table> ByRowTableSliceIter<'a, T> {
    pub closed spec fn spec_inner(self) -> TableSliceIter<'a, T> {
        self.inner
    }

    pub fn new(row: RowSlice<'a, T>) -> (r: ByRowTableSliceIter<'a, T>)
        requires
            row.spec_inner().wf(),
        ensures
            r.spec_inner().wf(),
    {
        ByRowTableSliceIter { inner: TableSliceIter::new(row.into_inner()) }
    }

    /// The next cell of the row.
    pub fn next(&mut self) -> (r: Option<Option<&'a T::Item>>)
        requires
            old(self).spec_inner().wf(),
        ensures
            final(self).spec_inner().wf(),
    {
        self.inner.next()
    }
}

/// How cell text sits inside its column.
#[derive(Clone, Copy, Debug, PartialEq, Eq, Structural)]
pub enum ContentAlignment {
    Left,
    Center,
    Right,
}

/// How a rendered table looks: alignment, cell box size, and separators.
pub struct TableStyle<'a> {
    pub align: ContentAlignment,
    pub cell_width: usize,
    pub cell_height: usize,
    pub col_separator: &'a str,
    pub row_separator: &'a str,
}

impl<'a> Default for TableStyle<'a> {
    /// Right-aligned cells of ten columns and one line, `|` and `-`
    /// separators.
    fn default() -> (r: TableStyle<'a>)
        ensures
            r.align == ContentAlignment::Right,
            r.cell_width == 10,
            r.cell_height == 1,
    {
        TableStyle {
            align: ContentAlignment::Right,
            cell_width: 10,
            cell_height: 1,
            col_separator: "|",
            row_separator: "-",
        }
    }
}

/// A rectangle of terminal cells, all bounds inclusive.
#[derive(Clone, Copy, Debug, PartialEq, Eq, Structural)]
pub struct DrawRect {
    pub start_x: u16,
    pub end_x: u16,
    pub start_y: u16,
    pub end_y: u16,
}

impl DrawRect {
    /// How many columns the rectangle covers.
    pub fn width(&self) -> (r: u16)
        requires
            self.start_x <= self.end_x,
            self.end_x < 0xFFFF,
        ensures
            r == self.end_x - self.start_x + 1,
    {
        self.end_x - self.start_x + 1
    }
}

} // verus!
