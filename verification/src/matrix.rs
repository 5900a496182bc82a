//! Dense boolean matrices, stored row by row as bit vectors.

use crate::bits::{bits, vec_clone, vec_from_elem, vec_get, vec_or, vec_set};
use bit_vec::BitVec;
use vstd::prelude::*;

verus! {

/// A `height` by `width` matrix of booleans.
pub struct Matrix {
    rows: Vec<BitVec<u32>>,
    width: usize,
}

impl View for Matrix {
    type V = Seq<Seq<bool>>;

    /// The rows, top to bottom, each as its sequence of entries.
    closed spec fn view(&self) -> Seq<Seq<bool>> {
        Seq::new(self.rows@.len(), |i: int| bits(self.rows@[i]))
    }
}

/// `v[0] && m[0][j] || .. || v[n - 1] && m[n - 1][j]`.
pub open spec fn row_times_below(v: Seq<bool>, m: Seq<Seq<bool>>, j: int, n: int) -> bool {
    exists|i: int| 0 <= i < n && v[i] && #[trigger] m[i][j]
}

/// Entry `j` of the boolean product of the row vector `v` with the matrix `m`:
/// some `i` has both `v[i]` and `m[i][j]`.
pub open spec fn row_times(v: Seq<bool>, m: Seq<Seq<bool>>, j: int) -> bool {
    row_times_below(v, m, j, v.len() as int)
}

impl Matrix {
    /// Every row has `width` entries.
    pub closed spec fn wf(&self) -> bool {
        forall|i: int| 0 <= i < self.rows@.len() ==> (#[trigger] bits(self.rows@[i])).len() == self.width
    }

    /// The number of rows.
    pub closed spec fn spec_height(&self) -> nat {
        self.rows@.len()
    }

    /// The number of columns.
    pub closed spec fn spec_width(&self) -> nat {
        self.width as nat
    }

    /// What `wf` means for the view: `height` rows of `width` entries each.
    pub proof fn lemma_shape(&self)
        requires
            self.wf(),
        ensures
            self@.len() == self.spec_height(),
            forall|i: int| 0 <= i < self@.len() ==> (#[trigger] self@[i]).len() == self.spec_width(),
    {
    }

    /// The matrix of the given shape with every entry `false`.
    pub fn new(height: usize, width: usize) -> (m: Matrix)
        ensures
            m.wf(),
            m.spec_height() == height,
            m.spec_width() == width,
            m@.len() == height,
            forall|i: int, j: int| 0 <= i < height && 0 <= j < width ==> !(#[trigger] m@[i][j]),
            forall|i: int| 0 <= i < height ==> (#[trigger] m@[i]).len() == width,
    {
        let mut rows: Vec<BitVec<u32>> = Vec::new();
        let mut i: usize = 0;
        while i < height
            invariant
                i <= height,
                rows@.len() == i,
                forall|k: int| 0 <= k < i ==> (#[trigger] bits(rows@[k])).len() == width,
                forall|k: int, j: int| 0 <= k < i && 0 <= j < width ==> !(#[trigger] bits(rows@[k])[j]),
            decreases height - i,
        {
            rows.push(vec_from_elem(width, false));
            i += 1;
        }
        Matrix { rows, width }
    }

    /// The number of rows.
    pub fn height(&self) -> (h: usize)
        ensures
            h == self.spec_height(),
    {
        self.rows.len()
    }

    /// The number of columns.
    pub fn width(&self) -> (w: usize)
        ensures
            w == self.spec_width(),
    {
        self.width
    }

    /// The entry in row `i`, column `j`.
    pub fn get(&self, i: usize, j: usize) -> (b: bool)
        requires
            self.wf(),
            i < self.spec_height(),
            j < self.spec_width(),
        ensures
            b == self@[i as int][j as int],
    {
        match vec_get(&self.rows[i], j) {
            Some(b) => b,
            None => false,
        }
    }

    /// Overwrites the entry in row `i`, column `j`.
    pub fn set(&mut self, i: usize, j: usize, b: bool)
        requires
            old(self).wf(),
            i < old(self).spec_height(),
            j < old(self).spec_width(),
        ensures
            final(self).wf(),
            final(self).spec_height() == old(self).spec_height(),
            final(self).spec_width() == old(self).spec_width(),
            final(self)@ == old(self)@.update(i as int, old(self)@[i as int].update(j as int, b)),
    {
        vec_set(&mut self.rows[i], j, b);
        assert(self@ =~= old(self)@.update(i as int, old(self)@[i as int].update(j as int, b)));
    }

    /// The product of the row vector `v` with this matrix: bit `j` of the
    /// result is set when some row `i` has both `v[i]` and the entry `(i, j)`.
    pub fn col_mul(&self, v: &BitVec<u32>) -> (r: BitVec<u32>)
        requires
            self.wf(),
            bits(*v).len() == self.spec_height(),
        ensures
            bits(r).len() == self.spec_width(),
            forall|j: int| 0 <= j < self.spec_width() ==> bits(r)[j] == row_times(bits(*v), self@, j),
    {
        let mut r = vec_from_elem(self.width, false);
        let mut i: usize = 0;
        while i < self.rows.len()
            invariant
                self.wf(),
                i <= self.rows@.len(),
                bits(*v).len() == self.rows@.len(),
                bits(r).len() == self.width,
                forall|j: int| 0 <= j < self.width ==>
                    bits(r)[j] == row_times_below(bits(*v), self@, j, i as int),
            decreases self.rows@.len() - i,
        {
            let ghost before = bits(r);
            let pick = match vec_get(v, i) {
                Some(b) => b,
                None => false,
            };
            if pick {
                assert(bits(self.rows@[i as int]).len() == self.width);
                vec_or(&mut r, &self.rows[i]);
            }
            proof {
                assert forall|j: int| 0 <= j < self.width implies bits(r)[j] == row_times_below(
                    bits(*v),
                    self@,
                    j,
                    i + 1,
                ) by {
                    let here = bits(*v)[i as int] && self@[i as int][j];
                    assert(bits(r)[j] == (before[j] || here));
                    if row_times_below(bits(*v), self@, j, i + 1) {
                        let k = choose|k: int| 0 <= k < i + 1 && bits(*v)[k] && #[trigger] self@[k][j];
                        if k < i {
                            assert(row_times_below(bits(*v), self@, j, i as int));
                        }
                    }
                    if before[j] {
                        let k = choose|k: int| 0 <= k < i && bits(*v)[k] && #[trigger] self@[k][j];
                        assert(0 <= k < i + 1 && bits(*v)[k] && self@[k][j]);
                    }
                    if here {
                        assert(0 <= i < i + 1 && bits(*v)[i as int] && self@[i as int][j]);
                    }
                }
            }
            i += 1;
        }
        r
    }

    /// The boolean matrix product `self * other`: entry `(i, j)` is set when
    /// some `k` has both `self[i][k]` and `other[k][j]`.
    pub fn mul(&self, other: &Matrix) -> (m: Matrix)
        requires
            self.wf(),
            other.wf(),
            self.spec_width() == other.spec_height(),
        ensures
            m.wf(),
            m.spec_height() == self.spec_height(),
            m.spec_width() == other.spec_width(),
            m@.len() == self.spec_height(),
            forall|i: int| 0 <= i < m@.len() ==> (#[trigger] m@[i]).len() == other.spec_width(),
            forall|i: int, j: int|
                0 <= i < self.spec_height() && 0 <= j < other.spec_width() ==> #[trigger] m@[i][j]
                    == row_times(self@[i], other@, j),
    {
        let mut rows: Vec<BitVec<u32>> = Vec::new();
        let mut i: usize = 0;
        while i < self.rows.len()
            invariant
                self.wf(),
                other.wf(),
                self.width == other.rows@.len(),
                i <= self.rows@.len(),
                rows@.len() == i,
                forall|k: int| 0 <= k < i ==> (#[trigger] bits(rows@[k])).len() == other.width,
                forall|k: int, j: int|
                    0 <= k < i && 0 <= j < other.width ==> #[trigger] bits(rows@[k])[j] == row_times(
                        self@[k],
                        other@,
                        j,
                    ),
            decreases self.rows@.len() - i,
        {
            assert(bits(self.rows@[i as int]).len() == self.width);
            let row = other.col_mul(&self.rows[i]);
            rows.push(row);
            i += 1;
        }
        Matrix { rows, width: other.width }
    }

    /// A copy with the same entries.
    pub fn duplicate(&self) -> (m: Matrix)
        requires
            self.wf(),
        ensures
            m.wf(),
            m@ == self@,
            m.spec_height() == self.spec_height(),
            m.spec_width() == self.spec_width(),
    {
        let mut rows: Vec<BitVec<u32>> = Vec::new();
        let mut i: usize = 0;
        while i < self.rows.len()
            invariant
                i <= self.rows@.len(),
                rows@.len() == i,
                forall|k: int| 0 <= k < i ==> #[trigger] bits(rows@[k]) == bits(self.rows@[k]),
            decreases self.rows@.len() - i,
        {
            rows.push(vec_clone(&self.rows[i]));
            i += 1;
        }
        let m = Matrix { rows, width: self.width };
        assert(m@ =~= self@);
        m
    }
}

} // verus!
