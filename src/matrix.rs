use vstd::prelude::*;

use crate::element::{Element, ElementValue};

verus! {

/// Whether an integer fits in an `i64`.
pub open spec fn in_i64(x: int) -> bool {
    i64::MIN <= x <= i64::MAX
}

/// A `rows` by `cols` grid of the value `v`.
pub open spec fn filled(rows: nat, cols: nat, v: int) -> Seq<Seq<int>> {
    Seq::new(rows, |i: int| Seq::new(cols, |j: int| v))
}

/// Entry-wise sum of two grids of the shape of `a`.
pub open spec fn sum_of(a: Seq<Seq<int>>, b: Seq<Seq<int>>) -> Seq<Seq<int>> {
    Seq::new(a.len(), |i: int| Seq::new(a[i].len(), |j: int| a[i][j] + b[i][j]))
}

/// The transpose of a `rows` by `cols` grid.
pub open spec fn transposed(a: Seq<Seq<int>>, rows: nat, cols: nat) -> Seq<Seq<int>> {
    Seq::new(cols, |j: int| Seq::new(rows, |i: int| a[i][j]))
}

/// The sum of the first `k` products of row `i` of `a` with column `j` of `b`.
pub open spec fn dot(a: Seq<Seq<int>>, b: Seq<Seq<int>>, i: int, j: int, k: nat) -> int
    decreases k,
{
    if k == 0 {
        0
    } else {
        dot(a, b, i, j, (k - 1) as nat) + a[i][k - 1] * b[k - 1][j]
    }
}

/// The product of `a` (with `inner` columns) and `b` (with `cols` columns).
pub open spec fn product(a: Seq<Seq<int>>, b: Seq<Seq<int>>, inner: nat, cols: nat) -> Seq<
    Seq<int>,
> {
    Seq::new(a.len(), |i: int| Seq::new(cols, |j: int| dot(a, b, i, j, inner)))
}

/// Every entry-wise sum of `a` and `b` fits in an `i64`.
pub open spec fn sum_fits(a: Seq<Seq<int>>, b: Seq<Seq<int>>) -> bool {
    forall|i: int, j: int|
        0 <= i < a.len() && 0 <= j < a[i].len() ==> in_i64(#[trigger] (a[i][j] + b[i][j]))
}

/// The step of the product's running sum at row `i`, column `j`, term `k` fits in an `i64`.
pub open spec fn term_fits(a: Seq<Seq<int>>, b: Seq<Seq<int>>, i: int, j: int, k: int) -> bool {
    in_i64(a[i][k] * b[k][j]) && in_i64(dot(a, b, i, j, (k + 1) as nat))
}

/// Every product and running sum that the product of `a` and `b` computes fits in an `i64`.
pub open spec fn product_fits(a: Seq<Seq<int>>, b: Seq<Seq<int>>, inner: nat, cols: nat) -> bool {
    forall|i: int, j: int, k: int|
        0 <= i < a.len() && 0 <= j < cols && 0 <= k < inner ==> #[trigger] term_fits(a, b, i, j, k)
}

/// A dense matrix of `i64` entries, stored row by row.
pub struct Matrix {
    pub cols: usize,
    pub data: Vec<Vec<i64>>,
}

impl View for Matrix {
    type V = Seq<Seq<int>>;

    open spec fn view(&self) -> Seq<Seq<int>> {
        Seq::new(
            self.data@.len(),
            |i: int| Seq::new(self.data@[i]@.len(), |j: int| self.data@[i]@[j] as int),
        )
    }
}

impl Matrix {
    /// Every row holds `cols` entries.
    pub open spec fn wf(&self) -> bool {
        forall|i: int| 0 <= i < self.data@.len() ==> (#[trigger] self.data@[i])@.len() == self.cols
    }

    pub open spec fn nrows(&self) -> nat {
        self.data@.len()
    }

    /// Whether two matrices have the same number of rows and columns.
    pub open spec fn same_shape(&self, other: &Matrix) -> bool {
        self.nrows() == other.nrows() && self.cols == other.cols
    }

    pub fn rows(&self) -> (r: usize)
        ensures
            r == self.nrows(),
    {
        self.data.len()
    }

    /// A `rows` by `cols` matrix with every entry `v`.
    pub fn filled(rows: usize, cols: usize, v: i64) -> (r: Matrix)
        ensures
            r.wf(),
            r.nrows() == rows,
            r.cols == cols,
            r@ == filled(rows as nat, cols as nat, v as int),
    {
        let mut data: Vec<Vec<i64>> = Vec::new();
        let mut i: usize = 0;
        while i < rows
            invariant
                i <= rows,
                data@.len() == i,
                forall|k: int| 0 <= k < i ==> (#[trigger] data@[k])@ == Seq::new(cols as nat, |l: int| v),
            decreases rows - i,
        {
            let mut row: Vec<i64> = Vec::new();
            let mut j: usize = 0;
            while j < cols
                invariant
                    j <= cols,
                    row@.len() == j,
                    row@ == Seq::new(j as nat, |l: int| v),
                decreases cols - j,
            {
                row.push(v);
                j = j + 1;
                assert(row@ =~= Seq::new(j as nat, |l: int| v));
            }
            data.push(row);
            i = i + 1;
        }
        let r = Matrix { cols, data };
        assert(r@ =~~= filled(rows as nat, cols as nat, v as int));
        r
    }

    /// The matrix with the given rows; `None` when a row does not hold
    /// `cols` entries.
    pub fn from_rows(data: Vec<Vec<i64>>, cols: usize) -> (r: Option<Matrix>)
        ensures
            r is Some <==> forall|i: int| 0 <= i < data@.len() ==> (#[trigger] data@[i])@.len() == cols,
            r matches Some(m) ==> m.wf() && m.cols == cols && m.data == data,
    {
        let mut i: usize = 0;
        while i < data.len()
            invariant
                i <= data@.len(),
                forall|k: int| 0 <= k < i ==> (#[trigger] data@[k])@.len() == cols,
            decreases data@.len() - i,
        {
            if data[i].len() != cols {
                return None;
            }
            i = i + 1;
        }
        Some(Matrix { cols, data })
    }

    /// The matrix with the given rows of elements; `None` when a row does
    /// not hold `cols` entries.
    pub fn from_elements<E: Element>(rows: &Vec<Vec<E>>, cols: usize) -> (r: Option<Matrix>)
        ensures
            r is Some <==> forall|i: int| 0 <= i < rows@.len() ==> (#[trigger] rows@[i])@.len() == cols,
            r matches Some(m) ==> m.wf() && m.cols == cols && m.nrows() == rows@.len() && forall|
                i: int,
                j: int,
            | 0 <= i < rows@.len() && 0 <= j < cols ==> #[trigger] m@[i][j] == rows@[i]@[j].value_of(),
    {
        let mut data: Vec<Vec<i64>> = Vec::new();
        let mut i: usize = 0;
        while i < rows.len()
            invariant
                i <= rows@.len(),
                data@.len() == i,
                forall|k: int| 0 <= k < i ==> (#[trigger] rows@[k])@.len() == cols,
                forall|k: int|
                    0 <= k < i ==> (#[trigger] data@[k])@.len() == cols && forall|l: int|
                        0 <= l < cols ==> (#[trigger] data@[k]@[l]) as int == rows@[k]@[l].value_of(),
            decreases rows@.len() - i,
        {
            let src = &rows[i];
            if src.len() != cols {
                return None;
            }
            let mut row: Vec<i64> = Vec::new();
            let mut j: usize = 0;
            while j < cols
                invariant
                    src@.len() == cols,
                    *src == rows@[i as int],
                    j <= cols,
                    row@.len() == j,
                    forall|l: int| 0 <= l < j ==> (#[trigger] row@[l]) as int == src@[l].value_of(),
                decreases cols - j,
            {
                row.push(src[j].to_i64());
                j = j + 1;
            }
            data.push(row);
            i = i + 1;
        }
        let m = Matrix { cols, data };
        assert forall|i: int, j: int| 0 <= i < rows@.len() && 0 <= j < cols implies #[trigger] m@[i][j]
            == rows@[i]@[j].value_of() by {
            assert(m@[i][j] == data@[i]@[j]);
        }
        Some(m)
    }

    /// The matrix of zeros with the shape of `self`.
    pub fn zeros(&self) -> (r: Matrix)
        ensures
            r.wf(),
            r.same_shape(self),
            r@ == filled(self.nrows(), self.cols as nat, 0),
    {
        Matrix::filled(self.data.len(), self.cols, 0)
    }

    /// The matrix of ones with the shape of `self`.
    pub fn ones(&self) -> (r: Matrix)
        ensures
            r.wf(),
            r.same_shape(self),
            r@ == filled(self.nrows(), self.cols as nat, 1),
    {
        Matrix::filled(self.data.len(), self.cols, 1)
    }

    /// The entry-wise sum of two matrices of one shape; `None` when an entry
    /// of it does not fit in an `i64`.
    pub fn add(&self, other: &Matrix) -> (r: Option<Matrix>)
        requires
            self.wf(),
            other.wf(),
            self.same_shape(other),
        ensures
            r is Some <==> sum_fits(self@, other@),
            r matches Some(m) ==> m.wf() && m.same_shape(self) && m@ == sum_of(self@, other@),
    {
        let mut data: Vec<Vec<i64>> = Vec::new();
        let mut i: usize = 0;
        while i < self.data.len()
            invariant
                self.wf(),
                other.wf(),
                self.same_shape(other),
                i <= self.data@.len(),
                data@.len() == i,
                forall|k: int|
                    0 <= k < i ==> (#[trigger] data@[k])@.len() == self.cols && forall|l: int|
                        0 <= l < self.cols ==> (#[trigger] data@[k]@[l]) as int == self@[k][l]
                            + other@[k][l],
            decreases self.data@.len() - i,
        {
            let a = &self.data[i];
            let b = &other.data[i];
            let mut row: Vec<i64> = Vec::new();
            let mut j: usize = 0;
            while j < self.cols
                invariant
                    self.wf(),
                    other.wf(),
                    self.same_shape(other),
                    0 <= i < self.data@.len(),
                    *a == self.data@[i as int],
                    *b == other.data@[i as int],
                    j <= self.cols,
                    row@.len() == j,
                    forall|l: int| 0 <= l < j ==> (#[trigger] row@[l]) as int == self@[i as int][l]
                        + other@[i as int][l],
                decreases self.cols - j,
            {
                match a[j].checked_add(b[j]) {
                    Some(x) => row.push(x),
                    None => {
                        assert(!in_i64(self@[i as int][j as int] + other@[i as int][j as int]));
                        return None;
                    },
                }
                j = j + 1;
            }
            data.push(row);
            i = i + 1;
        }
        let r = Matrix { cols: self.cols, data };
        assert(r@ =~~= sum_of(self@, other@));
        assert(sum_fits(self@, other@)) by {
            assert forall|k: int, l: int|
                0 <= k < self@.len() && 0 <= l < self@[k].len() implies in_i64(
                #[trigger] (self@[k][l] + other@[k][l]),
            ) by {
                assert(r@[k][l] == data@[k]@[l]);
            }
        }
        Some(r)
    }

    /// The matrix product of `self` and `other`; `None` when a product of two
    /// entries or a running sum of them does not fit in an `i64`.
    pub fn matmul(&self, other: &Matrix) -> (r: Option<Matrix>)
        requires
            self.wf(),
            other.wf(),
            self.cols == other.nrows(),
        ensures
            r is Some <==> product_fits(self@, other@, self.cols as nat, other.cols as nat),
            r matches Some(m) ==> m.wf() && m.nrows() == self.nrows() && m.cols == other.cols
                && m@ == product(self@, other@, self.cols as nat, other.cols as nat),
    {
        let ghost a = self@;
        let ghost b = other@;
        let ghost n = self.cols as nat;
        let mut data: Vec<Vec<i64>> = Vec::new();
        let mut i: usize = 0;
        while i < self.data.len()
            invariant
                self.wf(),
                other.wf(),
                self.cols == other.nrows(),
                a == self@,
                b == other@,
                n == self.cols,
                i <= self.data@.len(),
                data@.len() == i,
                forall|k: int|
                    0 <= k < i ==> (#[trigger] data@[k])@.len() == other.cols && forall|l: int|
                        0 <= l < other.cols ==> (#[trigger] data@[k]@[l]) as int == dot(
                            a,
                            b,
                            k,
                            l,
                            n,
                        ),
                forall|ii: int, jj: int, kk: int|
                    0 <= ii < i && 0 <= jj < other.cols && 0 <= kk < n ==> #[trigger] term_fits(
                        a,
                        b,
                        ii,
                        jj,
                        kk,
                    ),
            decreases self.data@.len() - i,
        {
            let mut row: Vec<i64> = Vec::new();
            let mut j: usize = 0;
            while j < other.cols
                invariant
                    self.wf(),
                    other.wf(),
                    self.cols == other.nrows(),
                    a == self@,
                    b == other@,
                    n == self.cols,
                    i < self.data@.len(),
                    j <= other.cols,
                    row@.len() == j,
                    forall|l: int| 0 <= l < j ==> (#[trigger] row@[l]) as int == dot(a, b, i as int, l, n),
                    forall|ii: int, jj: int, kk: int|
                        0 <= ii < i && 0 <= jj < other.cols && 0 <= kk < n ==> #[trigger] term_fits(
                            a,
                            b,
                            ii,
                            jj,
                            kk,
                        ),
                    forall|jj: int, kk: int|
                        0 <= jj < j && 0 <= kk < n ==> #[trigger] term_fits(a, b, i as int, jj, kk),
                decreases other.cols - j,
            {
                let mut acc: i64 = 0;
                let mut k: usize = 0;
                while k < self.cols
                    invariant
                        self.wf(),
                        other.wf(),
                        self.cols == other.nrows(),
                        a == self@,
                        b == other@,
                        n == self.cols,
                        i < self.data@.len(),
                        j < other.cols,
                        k <= self.cols,
                        acc as int == dot(a, b, i as int, j as int, k as nat),
                        forall|kk: int| 0 <= kk < k ==> #[trigger] term_fits(a, b, i as int, j as int, kk),
                    decreases self.cols - k,
                {
                    let x = self.data[i][k];
                    let y = other.data[k][j];
                    assert(a[i as int][k as int] == x && b[k as int][j as int] == y);
                    let p = match x.checked_mul(y) {
                        Some(p) => p,
                        None => {
                            assert(!term_fits(a, b, i as int, j as int, k as int));
                            return None;
                        },
                    };
                    match acc.checked_add(p) {
                        Some(s) => acc = s,
                        None => {
                            assert(!term_fits(a, b, i as int, j as int, k as int));
                            return None;
                        },
                    }
                    k = k + 1;
                }
                row.push(acc);
                j = j + 1;
            }
            data.push(row);
            i = i + 1;
        }
        let r = Matrix { cols: other.cols, data };
        assert(r@ =~~= product(a, b, n, other.cols as nat));
        Some(r)
    }

    /// The transpose of the matrix.
    pub fn transpose(&self) -> (r: Matrix)
        requires
            self.wf(),
        ensures
            r.wf(),
            r.nrows() == self.cols,
            r.cols == self.nrows(),
            r@ == transposed(self@, self.nrows(), self.cols as nat),
    {
        let mut data: Vec<Vec<i64>> = Vec::new();
        let mut j: usize = 0;
        while j < self.cols
            invariant
                self.wf(),
                j <= self.cols,
                data@.len() == j,
                forall|k: int|
                    0 <= k < j ==> (#[trigger] data@[k])@.len() == self.data@.len() && forall|l: int|
                        0 <= l < self.data@.len() ==> #[trigger] data@[k]@[l] == self.data@[l]@[k],
            decreases self.cols - j,
        {
            let mut row: Vec<i64> = Vec::new();
            let mut i: usize = 0;
            while i < self.data.len()
                invariant
                    self.wf(),
                    j < self.cols,
                    i <= self.data@.len(),
                    row@.len() == i,
                    forall|l: int| 0 <= l < i ==> #[trigger] row@[l] == self.data@[l]@[j as int],
                decreases self.data@.len() - i,
            {
                row.push(self.data[i][j]);
                i = i + 1;
            }
            data.push(row);
            j = j + 1;
        }
        let r = Matrix { cols: self.data.len(), data };
        assert(r@ =~~= transposed(self@, self.nrows(), self.cols as nat));
        r
    }

    /// An entry-for-entry copy.
    pub fn copy(&self) -> (r: Matrix)
        requires
            self.wf(),
        ensures
            r.wf(),
            r.same_shape(self),
            r@ == self@,
    {
        let mut data: Vec<Vec<i64>> = Vec::new();
        let mut i: usize = 0;
        while i < self.data.len()
            invariant
                self.wf(),
                i <= self.data@.len(),
                data@.len() == i,
                forall|k: int| 0 <= k < i ==> (#[trigger] data@[k])@ == self.data@[k]@,
            decreases self.data@.len() - i,
        {
            let src = &self.data[i];
            let mut row: Vec<i64> = Vec::new();
            let mut j: usize = 0;
            while j < src.len()
                invariant
                    j <= src@.len(),
                    row@ == src@.subrange(0, j as int),
                decreases src@.len() - j,
            {
                row.push(src[j]);
                j = j + 1;
                assert(row@ =~= src@.subrange(0, j as int));
            }
            assert(row@ =~= src@);
            data.push(row);
            i = i + 1;
        }
        let r = Matrix { cols: self.cols, data };
        assert(r@ =~~= self@);
        r
    }
}

} // verus!
