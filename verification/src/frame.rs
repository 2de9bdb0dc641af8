//! Frames: row batches over a schema of byte names.
//!
//! A cell is an optional integer; a row holds one cell per column. Frames are
//! the payload carrier of the join: they are sliced by partition, stacked
//! horizontally when a match is emitted, and padded with nulls for unmatched
//! rows.

use vstd::prelude::*;

use crate::names::copy_names;
use crate::names::names_view;

verus! {

/// One value of a column: `None` is the null value.
pub type Cell = Option<i64>;

/// The mathematical view of a list of rows.
pub open spec fn rows_view(rows: Seq<Vec<Cell>>) -> Seq<Seq<Cell>> {
    rows.map_values(|r: Vec<Cell>| r@)
}

/// A row of nulls of the given width.
pub open spec fn null_row(width: nat) -> Seq<Cell> {
    Seq::new(width, |j: int| None::<i64>)
}

/// A batch of rows over named columns.
pub struct Frame {
    pub names: Vec<Vec<u8>>,
    pub rows: Vec<Vec<Cell>>,
}

impl Frame {
    /// Every row has exactly one cell per column.
    pub open spec fn wf(&self) -> bool {
        forall|i: int|
            0 <= i < self.rows@.len() ==> (#[trigger] self.rows@[i])@.len() == self.names@.len()
    }

    pub open spec fn spec_height(&self) -> nat {
        self.rows@.len()
    }

    pub open spec fn spec_width(&self) -> nat {
        self.names@.len()
    }

    pub fn height(&self) -> (r: usize)
        ensures
            r == self.spec_height(),
    {
        self.rows.len()
    }

    pub fn width(&self) -> (r: usize)
        ensures
            r == self.spec_width(),
    {
        self.names.len()
    }

    /// An empty frame over the given schema.
    pub fn new_empty(names: Vec<Vec<u8>>) -> (r: Frame)
        ensures
            r.wf(),
            r.names@ == names@,
            r.spec_height() == 0,
    {
        Frame { names, rows: Vec::new() }
    }

    /// A frame of the given height whose cells are all null.
    pub fn full_null(names: Vec<Vec<u8>>, height: usize) -> (r: Frame)
        ensures
            r.wf(),
            r.names@ == names@,
            r.spec_height() == height,
            forall|i: int|
                0 <= i < height ==> rows_view(r.rows@)[i] == null_row(names@.len() as nat),
    {
        let width = names.len();
        let mut rows: Vec<Vec<Cell>> = Vec::new();
        let mut i: usize = 0;
        while i < height
            invariant
                0 <= i <= height,
                rows@.len() == i,
                forall|k: int| 0 <= k < i ==> (#[trigger] rows@[k])@ == null_row(width as nat),
            decreases height - i,
        {
            let mut row: Vec<Cell> = Vec::new();
            let mut j: usize = 0;
            while j < width
                invariant
                    0 <= j <= width,
                    row@.len() == j,
                    forall|k: int| 0 <= k < j ==> row@[k] is None,
                decreases width - j,
            {
                row.push(None);
                j += 1;
            }
            assert(row@ =~= null_row(width as nat));
            rows.push(row);
            i += 1;
        }
        proof {
            assert(forall|k: int|
                0 <= k < height ==> rows_view(rows@)[k] == (#[trigger] rows@[k])@);
        }
        Frame { names, rows }
    }

    /// Appends the rows of another frame over an equal schema.
    pub fn append_rows(&mut self, other: Frame)
        requires
            old(self).wf(),
            other.wf(),
            other.names@.len() == old(self).names@.len(),
        ensures
            final(self).wf(),
            final(self).names@ == old(self).names@,
            rows_view(final(self).rows@) == rows_view(old(self).rows@) + rows_view(other.rows@),
    {
        let ghost orig = self.rows@;
        let ghost added = other.rows@;
        let mut more = other.rows;
        let ghost mut i: int = 0;
        while more.len() > 0
            invariant
                0 <= i <= added.len(),
                more@ == added.skip(i),
                self.rows@ == orig + added.take(i),
                self.names@ == old(self).names@,
                forall|k: int|
                    0 <= k < added.len() ==> (#[trigger] added[k])@.len() == self.names@.len(),
                forall|k: int|
                    0 <= k < orig.len() ==> (#[trigger] orig[k])@.len() == self.names@.len(),
            decreases more.len(),
        {
            assert(i < added.len()) by {
                assert(added.skip(i).len() > 0);
            }
            let row = more.remove(0);
            assert(row == added[i]);
            self.rows.push(row);
            assert(self.rows@ =~= orig + added.take(i + 1));
            assert(more@ =~= added.skip(i + 1));
            proof {
                i = i + 1;
            }
        }
        assert(added.skip(i).len() == 0);
        assert(self.rows@ =~= orig + added);
        assert(rows_view(self.rows@) =~= rows_view(orig) + rows_view(added));
    }
}

/// An explicit copy of a row.
pub fn copy_cells(v: &Vec<Cell>) -> (r: Vec<Cell>)
    ensures
        r@ == v@,
{
    let mut r: Vec<Cell> = Vec::new();
    let mut i: usize = 0;
    while i < v.len()
        invariant
            0 <= i <= v.len(),
            r@ == v@.take(i as int),
        decreases v.len() - i,
    {
        r.push(v[i]);
        assert(r@ =~= v@.take(i + 1 as int));
        i += 1;
    }
    assert(r@ =~= v@);
    r
}

/// Concatenation of two rows.
pub fn concat_cells(a: &Vec<Cell>, b: &Vec<Cell>) -> (r: Vec<Cell>)
    ensures
        r@ == a@ + b@,
{
    let mut r = copy_cells(a);
    let mut j: usize = 0;
    while j < b.len()
        invariant
            0 <= j <= b.len(),
            r@ == a@ + b@.take(j as int),
        decreases b.len() - j,
    {
        r.push(b[j]);
        assert(r@ =~= a@ + b@.take(j + 1 as int));
        j += 1;
    }
    assert(r@ =~= a@ + b@);
    r
}

/// Gathers the cells of a row at the given positions, in order.
pub fn gather_cells(row: &Vec<Cell>, idxs: &Vec<usize>) -> (r: Vec<Cell>)
    requires
        forall|k: int| 0 <= k < idxs@.len() ==> (#[trigger] idxs@[k]) < row@.len(),
    ensures
        r@ == idxs@.map_values(|u: usize| row@[u as int]),
{
    let mut r: Vec<Cell> = Vec::new();
    let mut i: usize = 0;
    while i < idxs.len()
        invariant
            0 <= i <= idxs@.len(),
            forall|k: int| 0 <= k < idxs@.len() ==> (#[trigger] idxs@[k]) < row@.len(),
            r@ == idxs@.take(i as int).map_values(|u: usize| row@[u as int]),
        decreases idxs.len() - i,
    {
        r.push(row[idxs[i]]);
        assert(r@ =~= idxs@.take(i + 1 as int).map_values(|u: usize| row@[u as int]));
        i += 1;
    }
    assert(idxs@.take(idxs@.len() as int) =~= idxs@);
    r
}

/// Gathers whole rows of a row list at the given positions, in order.
pub fn gather_row_lists(rows: &Vec<Vec<Cell>>, idxs: &Vec<usize>) -> (r: Vec<Vec<Cell>>)
    requires
        forall|k: int| 0 <= k < idxs@.len() ==> (#[trigger] idxs@[k]) < rows@.len(),
    ensures
        r@.len() == idxs@.len(),
        rows_view(r@) == idxs@.map_values(|u: usize| rows_view(rows@)[u as int]),
        forall|k: int|
            0 <= k < idxs@.len() ==> (#[trigger] r@[k])@ == rows@[idxs@[k] as int]@,
{
    let mut r: Vec<Vec<Cell>> = Vec::new();
    let mut i: usize = 0;
    while i < idxs.len()
        invariant
            0 <= i <= idxs@.len(),
            forall|k: int| 0 <= k < idxs@.len() ==> (#[trigger] idxs@[k]) < rows@.len(),
            r@.len() == i,
            forall|k: int| 0 <= k < i ==> (#[trigger] r@[k])@ == rows@[idxs@[k] as int]@,
        decreases idxs.len() - i,
    {
        let row = copy_cells(&rows[idxs[i]]);
        r.push(row);
        i += 1;
    }
    proof {
        assert forall|k: int| 0 <= k < idxs@.len() implies rows_view(r@)[k] == idxs@.map_values(
            |u: usize| rows_view(rows@)[u as int],
        )[k] by {
            assert(rows_view(r@)[k] == r@[k]@);
            assert(rows_view(rows@)[idxs@[k] as int] == rows@[idxs@[k] as int]@);
        }
        assert(rows_view(r@) =~= idxs@.map_values(|u: usize| rows_view(rows@)[u as int]));
    }
    r
}

/// Gathers whole rows of a frame at the given positions, in order.
pub fn take_rows(df: &Frame, idxs: &Vec<usize>) -> (r: Frame)
    requires
        df.wf(),
        forall|k: int| 0 <= k < idxs@.len() ==> (#[trigger] idxs@[k]) < df.spec_height(),
    ensures
        r.wf(),
        r.names@.len() == df.names@.len(),
        names_view(r.names@) == names_view(df.names@),
        rows_view(r.rows@) == idxs@.map_values(|u: usize| rows_view(df.rows@)[u as int]),
{
    let mut rows: Vec<Vec<Cell>> = Vec::new();
    let mut i: usize = 0;
    while i < idxs.len()
        invariant
            0 <= i <= idxs@.len(),
            df.wf(),
            forall|k: int| 0 <= k < idxs@.len() ==> (#[trigger] idxs@[k]) < df.spec_height(),
            rows@.len() == i,
            forall|k: int|
                0 <= k < i ==> (#[trigger] rows@[k])@ == df.rows@[idxs@[k] as int]@,
        decreases idxs.len() - i,
    {
        let row = copy_cells(&df.rows[idxs[i]]);
        rows.push(row);
        i += 1;
    }
    proof {
        assert forall|k: int| 0 <= k < idxs@.len() implies rows_view(rows@)[k] == idxs@.map_values(
            |u: usize| rows_view(df.rows@)[u as int],
        )[k] by {
            assert(rows_view(rows@)[k] == rows@[k]@);
            assert(rows_view(df.rows@)[idxs@[k] as int] == df.rows@[idxs@[k] as int]@);
        }
        assert(rows_view(rows@) =~= idxs@.map_values(|u: usize| rows_view(df.rows@)[u as int]));
    }
    Frame { names: copy_names(&df.names), rows }
}

/// Stacks two frames of equal height side by side, left columns first.
pub fn hstack(a: &Frame, b: &Frame) -> (r: Frame)
    requires
        a.wf(),
        b.wf(),
        a.spec_height() == b.spec_height(),
    ensures
        r.wf(),
        r.names@.len() == a.names@.len() + b.names@.len(),
        names_view(r.names@) == names_view(a.names@) + names_view(b.names@),
        r.spec_height() == a.spec_height(),
        forall|i: int|
            0 <= i < r.spec_height() ==> rows_view(r.rows@)[i] == rows_view(a.rows@)[i] + rows_view(
                b.rows@,
            )[i],
{
    let mut names = copy_names(&a.names);
    let ghost half = names@;
    let mut j: usize = 0;
    while j < b.names.len()
        invariant
            0 <= j <= b.names@.len(),
            names@.len() == a.names@.len() + j,
            names@.take(a.names@.len() as int) == half,
            names_view(half) == names_view(a.names@),
            forall|k: int|
                0 <= k < j ==> names_view(names@)[a.names@.len() + k] == names_view(b.names@)[k],
        decreases b.names.len() - j,
    {
        names.push(crate::names::copy_bytes(&b.names[j]));
        assert(names@.take(a.names@.len() as int) =~= half);
        j += 1;
    }
    assert(names_view(names@) =~= names_view(a.names@) + names_view(b.names@));

    let mut rows: Vec<Vec<Cell>> = Vec::new();
    let mut k: usize = 0;
    while k < a.rows.len()
        invariant
            0 <= k <= a.rows@.len(),
            a.wf(),
            b.wf(),
            a.spec_height() == b.spec_height(),
            names@.len() == a.names@.len() + b.names@.len(),
            rows@.len() == k,
            forall|i2: int|
                0 <= i2 < k ==> (#[trigger] rows@[i2])@ == a.rows@[i2]@ + b.rows@[i2]@,
        decreases a.rows.len() - k,
    {
        let row = concat_cells(&a.rows[k], &b.rows[k]);
        rows.push(row);
        k += 1;
    }
    proof {
        assert(forall|i2: int|
            0 <= i2 < rows@.len() ==> rows_view(rows@)[i2] == (#[trigger] rows@[i2])@);
        assert(forall|i2: int|
            0 <= i2 < rows@.len() ==> (#[trigger] rows@[i2])@.len() == names@.len());
    }
    Frame { names, rows }
}

} // verus!
