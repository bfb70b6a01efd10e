//! Storage of the base evidences: one cell for every non-empty subsequence.
//!
//! Only the cells `(j, v)` with `j < v <= n` exist, so a cell is never read before it is
//! written: row `j` holds the evidences of `[j, j + 1)`, `[j, j + 2)`, up to `[j, n)`.

use vstd::prelude::*;

verus! {

/// `rows` has the shape of a triangle: row `j` of `n` rows holds `n - j` cells.
pub open spec fn triangular<T>(rows: Seq<Seq<T>>) -> bool {
    forall|j: int| 0 <= j < rows.len() ==> (#[trigger] rows[j]).len() == rows.len() - j
}

/// The cell of the subsequence `[j, v)` in the triangle `rows`.
pub open spec fn cell<T>(rows: Seq<Seq<T>>, j: int, v: int) -> T {
    rows[j][v - j - 1]
}

/// The contents of a vector of vectors.
pub open spec fn nested<T>(v: Seq<Vec<T>>) -> Seq<Seq<T>> {
    Seq::new(v.len(), |i: int| v[i]@)
}

/// The triangle `rows` with the cell of `[j, v)` replaced by `x`.
pub open spec fn with_cell<T>(rows: Seq<Seq<T>>, j: int, v: int, x: T) -> Seq<Seq<T>> {
    rows.update(j, rows[j].update(v - j - 1, x))
}

/// The base evidences of a sequence of `side()` symbols.
pub struct Triangle<T> {
    rows: Vec<Vec<T>>,
}

impl<T> View for Triangle<T> {
    type V = Seq<Seq<T>>;

    closed spec fn view(&self) -> Seq<Seq<T>> {
        nested(self.rows@)
    }
}

impl<T> Triangle<T> {
    /// The rows have the lengths of a triangle.
    pub open spec fn wf(&self) -> bool {
        triangular(self@)
    }

    /// The length of the sequence that the triangle covers.
    pub open spec fn side(&self) -> nat {
        self@.len()
    }

    /// A triangle from its rows.
    pub fn from_rows(rows: Vec<Vec<T>>) -> (t: Self)
        requires
            forall|j: int| 0 <= j < rows@.len() ==> (#[trigger] rows@[j])@.len() == rows@.len() - j,
        ensures
            t.wf(),
            t@.len() == rows@.len(),
            forall|j: int| 0 <= j < rows@.len() ==> #[trigger] t@[j] == rows@[j]@,
    {
        Triangle { rows }
    }

    /// The length of the sequence that the triangle covers.
    pub fn side_len(&self) -> (n: usize)
        ensures
            n == self.side(),
    {
        self.rows.len()
    }

    /// The evidence of the subsequence `[j, v)`.
    pub fn get(&self, j: usize, v: usize) -> (r: &T)
        requires
            self.wf(),
            j < v <= self.side(),
        ensures
            *r == cell(self@, j as int, v as int),
    {
        assert(self@[j as int].len() == self@.len() - j);
        &self.rows[j][v - j - 1]
    }

    /// Replaces the evidence of the subsequence `[j, v)` by `x`.
    pub fn set(&mut self, j: usize, v: usize, x: T)
        requires
            old(self).wf(),
            j < v <= old(self).side(),
        ensures
            final(self).wf(),
            final(self)@ == with_cell(old(self)@, j as int, v as int, x),
    {
        assert(self@[j as int].len() == self@.len() - j);
        self.rows[j][v - j - 1] = x;
        assert(self@ =~~= with_cell(old(self)@, j as int, v as int, x));
    }
}

} // verus!
