//! Generic read access to a grid of values, and a dense grid.

use vstd::prelude::*;

use crate::pos::CellPos;

verus! {

/// Read access to a grid of items by cell position.
pub trait Table {
    type Item;

    /// The item stored at a position, if any.
    spec fn spec_get(&self, pos: CellPos) -> Option<Self::Item>;

    /// Looks the position up.
    fn get(&self, pos: CellPos) -> (r: Option<&Self::Item>)
        ensures
            match r {
                Some(v) => self.spec_get(pos) == Some(*v),
                None => self.spec_get(pos) is None,
            },
    ;
}

/// Write access to a grid of items.
pub trait TableMut: Table {
    /// Stores or clears the item at a position; every other position keeps
    /// its item.
    fn set(&mut self, pos: CellPos, item: Option<Self::Item>)
        requires
            pos.wf(),
        ensures
            final(self).spec_get(pos) == item,
            forall|q: CellPos|
                (q.x != pos.x || q.y != pos.y) ==> #[trigger] final(self).spec_get(q) == old(
                    self,
                ).spec_get(q),
    ;
}

/// A dense grid: a vector of columns, each a vector of optional items.
pub struct DataTable<I> {
    data: Vec<Vec<Option<I>>>,
}

impl<I> DataTable<I> {
    pub fn new() -> (r: DataTable<I>)
        ensures
            forall|q: CellPos| #[trigger] r.spec_get(q) is None,
    {
        let r = DataTable { data: Vec::new() };
        proof {
            assert(forall|q: CellPos| #[trigger] r.spec_get(q) is None);
        }
        r
    }

    /// How many columns the grid has allocated.
    pub fn col_count(&self) -> (r: usize)
        ensures
            r == self.data_view().len(),
    {
        self.data.len()
    }

    /// How many rows the given column has allocated.
    pub fn row_count(&self, x: usize) -> (r: usize)
        requires
            x < self.data_view().len(),
        ensures
            r == self.data_view()[x as int]@.len(),
    {
        self.data[x].len()
    }

    pub closed spec fn data_view(&self) -> Seq<Vec<Option<I>>> {
        self.data@
    }
}

/// The tallest allocated column among the first `i` of the grid's columns.
pub open spec fn max_rows<I>(cols: Seq<Vec<Option<I>>>, i: int) -> int
    decreases i,
{
    if i <= 0 || i > cols.len() {
        0
    } else if cols[i - 1]@.len() > max_rows(cols, i - 1) {
        cols[i - 1]@.len() as int
    } else {
        max_rows(cols, i - 1)
    }
}

impl<I> DataTable<I> {
    /// The least window containing every set cell of this grid: all its
    /// allocated columns wide and its tallest allocated column high.
    pub fn full_slice(&self) -> (r: crate::view::TableSlice<'_, DataTable<I>>)
        requires
            self.data_view().len() <= crate::pos::COORD_BOUND,
            forall|j: int|
                0 <= j < self.data_view().len() ==> (#[trigger] self.data_view()[j])@.len()
                    <= crate::pos::COORD_BOUND,
        ensures
            r.wf(),
            r.spec_table() == self,
            r.spec_pos().start == (CellPos { x: 0, y: 0 }),
            r.spec_pos().end.x == self.data_view().len(),
            r.spec_pos().end.y == max_rows(self.data_view(), self.data_view().len() as int),
            forall|q: CellPos|
                self.spec_get(q) is Some ==> q.x < r.spec_pos().end.x && q.y < r.spec_pos().end.y,
    {
        let cols: usize = self.data.len();
        let n: usize = cols;
        let mut rows: usize = 0;
        let mut i: usize = 0;
        while i < n
            invariant
                n == self.data_view().len(),
                i <= n,
                rows <= crate::pos::COORD_BOUND,
                forall|j: int|
                    0 <= j < n ==> (#[trigger] self.data_view()[j])@.len()
                        <= crate::pos::COORD_BOUND,
                forall|j: int| 0 <= j < i ==> (#[trigger] self.data_view()[j])@.len() <= rows,
                rows == max_rows(self.data_view(), i as int),
            decreases n - i,
        {
            let len: usize = self.data[i].len();
            if len > rows {
                rows = len;
            }
            i = i + 1;
        }
        let sp = crate::slice::SlicePos {
            start: CellPos { x: 0, y: 0 },
            end: CellPos { x: cols, y: rows },
        };
        let r = crate::view::TableSlice::new(sp, self);
        proof {
            assert forall|q: CellPos| self.spec_get(q) is Some implies q.x < r.spec_pos().end.x
                && q.y < r.spec_pos().end.y by {
                assert(self.data_view()[q.x as int]@.len() <= rows);
            }
        }
        r
    }
}

impl<I> Table for DataTable<I> {
    type Item = I;

    closed spec fn spec_get(&self, pos: CellPos) -> Option<I> {
        if pos.x < self.data@.len() && pos.y < self.data@[pos.x as int]@.len() {
            self.data@[pos.x as int]@[pos.y as int]
        } else {
            None
        }
    }

    fn get(&self, pos: CellPos) -> (r: Option<&I>) {
        if pos.x < self.data.len() && pos.y < self.data[pos.x].len() {
            match &self.data[pos.x][pos.y] {
                Some(v) => Some(v),
                None => None,
            }
        } else {
            None
        }
    }
}

impl<I> TableMut for DataTable<I> {
    fn set(&mut self, pos: CellPos, item: Option<I>) {
        while self.data.len() <= pos.x
            invariant
                old(self).data@.len() <= self.data@.len(),
                forall|j: int|
                    0 <= j < old(self).data@.len() ==> self.data@[j] == old(self).data@[j],
                forall|j: int|
                    old(self).data@.len() <= j < self.data@.len() ==> (#[trigger] self.data@[j])@
                        =~= Seq::<Option<I>>::empty(),
                pos.x < crate::pos::COORD_BOUND,
            decreases pos.x + 1 - self.data@.len(),
        {
            self.data.push(Vec::new());
        }
        let ghost grown = self.data@;
        let mut row: Vec<Option<I>> = self.data.remove(pos.x);
        let ghost row0 = row@;
        while row.len() <= pos.y
            invariant
                row0.len() <= row@.len(),
                forall|j: int| 0 <= j < row0.len() ==> row@[j] == row0[j],
                forall|j: int| row0.len() <= j < row@.len() ==> row@[j] is None,
                pos.y < crate::pos::COORD_BOUND,
            decreases pos.y + 1 - row@.len(),
        {
            row.push(None);
        }
        let ghost rgrown = row@;
        row.remove(pos.y);
        row.insert(pos.y, item);
        self.data.insert(pos.x, row);
        proof {
            assert(self.data@[pos.x as int]@[pos.y as int] == item);
            assert(final(self).spec_get(pos) == item);
            assert forall|q: CellPos|
                (q.x != pos.x || q.y != pos.y) implies #[trigger] final(self).spec_get(q) == old(
                self,
            ).spec_get(q) by {
                if q.x == pos.x {
                    // same column, different row
                    assert(self.data@[q.x as int]@ =~= rgrown.update(pos.y as int, item));
                    if (q.y as int) < rgrown.len() && q.y != pos.y {
                        assert(self.data@[q.x as int]@[q.y as int] == rgrown[q.y as int]);
                        if (q.y as int) < row0.len() {
                            assert(rgrown[q.y as int] == row0[q.y as int]);
                        } else {
                            assert(rgrown[q.y as int] is None);
                        }
                    }
                    if (q.x as int) >= old(self).data@.len() {
                        assert(grown[q.x as int]@ =~= Seq::<Option<I>>::empty());
                    }
                } else {
                    if (q.x as int) < grown.len() {
                        assert(self.data@[q.x as int] == grown[q.x as int]);
                        if (q.x as int) >= old(self).data@.len() {
                            assert(grown[q.x as int]@ =~= Seq::<Option<I>>::empty());
                        } else {
                            assert(grown[q.x as int] == old(self).data@[q.x as int]);
                        }
                    }
                }
            }
        }
    }
}

impl<I> Default for DataTable<I> {
    /// An empty grid.
    fn default() -> (r: DataTable<I>)
        ensures
            forall|q: CellPos| #[trigger] r.spec_get(q) is None,
    {
        DataTable::new()
    }
}

} // verus!
