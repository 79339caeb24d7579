//! A dense row-major matrix of field elements.
use vstd::prelude::*;
use crate::unsigned::Number;

verus! {

/// The rows of a `row` by `col` matrix stored row-major in `s`.
pub open spec fn grid(s: Seq<nat>, row: nat, col: nat) -> Seq<Seq<nat>> {
    Seq::new(row, |i: int| Seq::new(col, |j: int| s[i * col + j]))
}

/// The values of a sequence of field elements.
pub open spec fn values<T: Number>(s: Seq<T>) -> Seq<nat> {
    s.map_values(|x: T| x.value())
}

/// A `row` by `col` matrix; element (i, j) is stored at `i * col + j`.
pub struct Matrix<T> {
    data: Vec<T>,
    row: usize,
    col: usize,
}

proof fn lemma_index(row: nat, col: nat, i: nat, j: nat, k: nat, l: nat)
    requires
        i < row,
        j < col,
        k < row,
        l < col,
    ensures
        i * col + j < row * col,
        (i * col + j == k * col + l) <==> (i == k && j == l),
{
    assert(i * col + j < row * col) by (nonlinear_arith)
        requires i < row, j < col;
    if i < k {
        assert(i * col + j < k * col + l) by (nonlinear_arith)
            requires i < k, j < col;
    } else if k < i {
        assert(k * col + l < i * col + j) by (nonlinear_arith)
            requires k < i, l < col;
    }
}

impl<T: Number> View for Matrix<T> {
    type V = Seq<Seq<nat>>;

    /// The matrix as a sequence of rows of element values.
    closed spec fn view(&self) -> Seq<Seq<nat>> {
        grid(values(self.data@), self.row as nat, self.col as nat)
    }
}

impl<T: Number> Matrix<T> {
    pub closed spec fn rows(self) -> nat {
        self.row as nat
    }

    pub closed spec fn cols(self) -> nat {
        self.col as nat
    }

    /// The storage holds exactly `row * col` elements.
    pub closed spec fn wf(self) -> bool {
        self.data@.len() == self.row * self.col
    }

    pub proof fn lemma_shape(self)
        requires
            self.wf(),
        ensures
            self@.len() == self.rows(),
            forall|i: int| 0 <= i < self.rows() ==> (#[trigger] self@[i]).len() == self.cols(),
    {
    }

    /// Builds a `row` by `col` matrix from a copy of a row-major buffer.
    pub fn from(buf: &[T], row: usize, col: usize) -> (r: Matrix<T>)
        requires
            buf@.len() == row * col,
        ensures
            r.wf(),
            r.rows() == row,
            r.cols() == col,
            r@ == grid(values(buf@), row as nat, col as nat),
    {
        let len = buf.len();
        let mut data: Vec<T> = Vec::with_capacity(len);
        let mut i: usize = 0;
        while i < len
            invariant
                len == buf@.len(),
                i <= len,
                data@ == buf@.subrange(0, i as int),
            decreases len - i,
        {
            data.push(buf[i]);
            i = i + 1;
        }
        assert(data@ == buf@);
        Matrix { data, row, col }
    }

    pub fn row(&self) -> (r: usize)
        ensures
            r == self.rows(),
    {
        self.row
    }

    pub fn col(&self) -> (r: usize)
        ensures
            r == self.cols(),
    {
        self.col
    }

    /// Element (i, j).
    pub fn get(&self, i: usize, j: usize) -> (r: T)
        requires
            self.wf(),
            i < self.rows(),
            j < self.cols(),
        ensures
            r.value() == self@[i as int][j as int],
    {
        let _n = self.data.len();
        proof {
            lemma_index(self.row as nat, self.col as nat, i as nat, j as nat, i as nat, j as nat);
        }
        self.data[i * self.col + j]
    }

    /// Replaces element (i, j) by `v`.
    pub fn set(&mut self, i: usize, j: usize, v: T)
        requires
            old(self).wf(),
            i < old(self).rows(),
            j < old(self).cols(),
        ensures
            final(self).wf(),
            final(self).rows() == old(self).rows(),
            final(self).cols() == old(self).cols(),
            final(self)@ == old(self)@.update(i as int, old(self)@[i as int].update(j as int, v.value())),
    {
        let ghost before = self@;
        let (row, col) = (self.row, self.col);
        let _n = self.data.len();
        proof {
            lemma_index(row as nat, col as nat, i as nat, j as nat, i as nat, j as nat);
        }
        self.data.set(i * col + j, v);
        proof {
            let expect = before.update(i as int, before[i as int].update(j as int, v.value()));
            assert forall|k: int, l: int| 0 <= k < row && 0 <= l < col implies
                #[trigger] self@[k][l] == expect[k][l] by {
                lemma_index(row as nat, col as nat, i as nat, j as nat, k as nat, l as nat);
                lemma_index(row as nat, col as nat, k as nat, l as nat, k as nat, l as nat);
            }
            assert(self@ =~~= expect);
        }
    }
}

} // verus!
