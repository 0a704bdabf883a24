//! The destination matrix: a caller-owned two-dimensional buffer of 32-bit
//! values with a fixed column count, filled row by row by the batch driver.

use vstd::prelude::*;

verus! {

/// A two-dimensional buffer of 32-bit values. Every row holds exactly
/// `width` elements; rows are written whole, never element by element.
pub struct Matrix {
    width: usize,
    rows: Vec<Vec<u32>>,
}

impl View for Matrix {
    type V = Seq<Seq<u32>>;

    closed spec fn view(&self) -> Seq<Seq<u32>> {
        Seq::new(self.rows@.len(), |i: int| self.rows@[i]@)
    }
}

impl Matrix {
    /// The column count every row must have.
    pub closed spec fn spec_width(&self) -> nat {
        self.width as nat
    }

    /// Every row holds exactly `spec_width()` elements.
    pub open spec fn wf(&self) -> bool {
        forall|i: int| 0 <= i < self@.len() ==> (#[trigger] self@[i]).len() == self.spec_width()
    }

    /// A matrix of `rows` rows and `width` columns, all elements zero.
    pub fn new(rows: usize, width: usize) -> (m: Matrix)
        ensures
            m.wf(),
            m@.len() == rows,
            m.spec_width() == width,
            forall|i: int, j: int| 0 <= i < rows && 0 <= j < width ==> m@[i][j] == 0u32,
    {
        let mut data: Vec<Vec<u32>> = Vec::new();
        let mut i: usize = 0;
        while i < rows
            invariant
                i <= rows,
                data@.len() == i,
                forall|k: int| 0 <= k < i ==> (#[trigger] data@[k])@.len() == width,
                forall|k: int, j: int| 0 <= k < i && 0 <= j < width ==> data@[k]@[j] == 0u32,
            decreases rows - i,
        {
            let mut row: Vec<u32> = Vec::new();
            let mut j: usize = 0;
            while j < width
                invariant
                    j <= width,
                    row@.len() == j,
                    forall|k: int| 0 <= k < j ==> row@[k] == 0u32,
                decreases width - j,
            {
                row.push(0);
                j = j + 1;
            }
            data.push(row);
            i = i + 1;
        }
        Matrix { width, rows: data }
    }

    /// Wraps caller-supplied rows; fails when some row does not hold
    /// exactly `width` elements.
    pub fn from_rows(width: usize, rows: Vec<Vec<u32>>) -> (r: Option<Matrix>)
        ensures
            match r {
                Some(m) => {
                    &&& m.wf()
                    &&& m.spec_width() == width
                    &&& m@.len() == rows@.len()
                    &&& forall|i: int| 0 <= i < rows@.len() ==> m@[i] == (#[trigger] rows@[i])@
                },
                None => exists|i: int|
                    0 <= i < rows@.len() && (#[trigger] rows@[i])@.len() != width,
            },
    {
        let mut i: usize = 0;
        while i < rows.len()
            invariant
                i <= rows@.len(),
                forall|k: int| 0 <= k < i ==> (#[trigger] rows@[k])@.len() == width,
            decreases rows@.len() - i,
        {
            if rows[i].len() != width {
                return None;
            }
            i = i + 1;
        }
        Some(Matrix { width, rows })
    }

    /// The number of rows.
    pub fn num_rows(&self) -> (n: usize)
        ensures
            n == self@.len(),
    {
        self.rows.len()
    }

    /// The column count.
    pub fn width(&self) -> (w: usize)
        ensures
            w == self.spec_width(),
    {
        self.width
    }

    /// One element.
    pub fn entry(&self, i: usize, j: usize) -> (v: u32)
        requires
            i < self@.len(),
            j < self@[i as int].len(),
        ensures
            v == self@[i as int][j as int],
    {
        self.rows[i][j]
    }

    /// Replaces row `i` whole; every other row keeps its value.
    pub fn set_row(&mut self, i: usize, row: Vec<u32>)
        requires
            old(self).wf(),
            i < old(self)@.len(),
            row@.len() == old(self).spec_width(),
        ensures
            final(self).wf(),
            final(self).spec_width() == old(self).spec_width(),
            final(self)@ == old(self)@.update(i as int, row@),
    {
        self.rows.set(i, row);
        proof {
            assert(self@ =~= old(self)@.update(i as int, row@));
        }
    }
}

} // verus!
