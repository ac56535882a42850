//! The iteration-by-vertex distance table used by the Bellman-Ford engine:
//! a fixed-size two-dimensional array of lattice values.

use crate::minmax::MinMax;
use vstd::prelude::*;

verus! {

/// A `width` x `height` table of lattice values; cell `(x, y)` holds the
/// distance of vertex `x` at iteration `y`.
pub struct DistTable {
    pub width: usize,
    pub rows: Vec<Vec<MinMax<i64>>>,
}

impl DistTable {
    /// Every row has exactly `width` cells.
    pub open spec fn wf(self) -> bool {
        forall|y: int| 0 <= y < self.rows@.len() ==> (#[trigger] self.rows@[y])@.len()
            == self.width
    }

    pub open spec fn height(self) -> nat {
        self.rows@.len()
    }

    /// The cell for vertex `x` at iteration `y`.
    pub open spec fn at(self, x: int, y: int) -> MinMax<i64> {
        self.rows@[y]@[x]
    }

    /// A fresh table with every cell holding `fill`.
    pub fn new(width: usize, height: usize, fill: MinMax<i64>) -> (t: DistTable)
        ensures
            t.wf(),
            t.width == width,
            t.height() == height,
            forall|x: int, y: int| 0 <= x < width && 0 <= y < height ==> t.at(x, y) == fill,
    {
        let mut rows: Vec<Vec<MinMax<i64>>> = Vec::new();
        let mut y: usize = 0;
        while y < height
            invariant
                y <= height,
                rows@.len() == y,
                forall|j: int| 0 <= j < y ==> (#[trigger] rows@[j])@.len() == width,
                forall|j: int, i: int|
                    0 <= j < y && 0 <= i < width ==> #[trigger] rows@[j]@[i] == fill,
            decreases height - y,
        {
            rows.push(filled_row(width, fill));
            y = y + 1;
        }
        DistTable { width, rows }
    }

    /// Reads one cell.
    pub fn get(&self, x: usize, y: usize) -> (r: MinMax<i64>)
        requires
            self.wf(),
            x < self.width,
            y < self.height(),
        ensures
            r == self.at(x as int, y as int),
    {
        self.rows[y][x]
    }

    /// Writes one cell; every other cell keeps its value.
    pub fn set(&mut self, x: usize, y: usize, value: MinMax<i64>)
        requires
            old(self).wf(),
            x < old(self).width,
            y < old(self).height(),
        ensures
            final(self).wf(),
            final(self).width == old(self).width,
            final(self).height() == old(self).height(),
            final(self).at(x as int, y as int) == value,
            forall|a: int, b: int|
                0 <= a < old(self).width && 0 <= b < old(self).height() && !(a == x && b == y)
                    ==> final(self).at(a, b) == old(self).at(a, b),
    {
        let row = &mut self.rows[y];
        row.set(x, value);
        proof {
            assert forall|a: int, b: int|
                0 <= a < old(self).width && 0 <= b < old(self).height() && !(a == x && b == y)
                    implies final(self).at(a, b) == old(self).at(a, b) by {
                if b != y {
                    assert(final(self).rows@[b] == old(self).rows@[b]);
                }
            }
        }
    }

    /// Copies out one row: the distances of every vertex at iteration `y`.
    pub fn get_row(&self, y: usize) -> (r: Vec<MinMax<i64>>)
        requires
            self.wf(),
            y < self.height(),
        ensures
            r@.len() == self.width,
            forall|x: int| 0 <= x < self.width ==> r@[x] == self.at(x, y as int),
    {
        let mut r: Vec<MinMax<i64>> = Vec::new();
        let mut x: usize = 0;
        while x < self.width
            invariant
                self.wf(),
                y < self.height(),
                x <= self.width,
                r@.len() == x,
                forall|i: int| 0 <= i < x ==> r@[i] == self.at(i, y as int),
            decreases self.width - x,
        {
            r.push(self.rows[y][x]);
            x = x + 1;
        }
        r
    }
}

/// One table row with every cell holding `fill`.
fn filled_row(width: usize, fill: MinMax<i64>) -> (row: Vec<MinMax<i64>>)
    ensures
        row@.len() == width,
        forall|i: int| 0 <= i < width ==> row@[i] == fill,
{
    let mut row: Vec<MinMax<i64>> = Vec::new();
    let mut x: usize = 0;
    while x < width
        invariant
            x <= width,
            row@.len() == x,
            forall|i: int| 0 <= i < x ==> row@[i] == fill,
        decreases width - x,
    {
        row.push(fill);
        x = x + 1;
    }
    row
}

} // verus!
