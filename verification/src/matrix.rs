//! A dense row-major matrix over an arbitrary copyable scalar, and a linear
//! solver for systems whose right-hand side is carried as a single-column
//! matrix.

use vstd::prelude::*;

verus! {

/// `i * c + j` stays inside an `r * c` flat buffer.
pub proof fn lemma_flat_index(i: int, j: int, r: int, c: int)
    by (nonlinear_arith)
    requires
        0 <= i < r,
        0 <= j < c,
    ensures
        0 <= i * c + j < r * c,
        i * c <= (r - 1) * c,
{
}

/// Two distinct rows occupy disjoint ranges of the flat buffer.
pub proof fn lemma_flat_index_injective(i1: int, j1: int, i2: int, j2: int, c: int)
    by (nonlinear_arith)
    requires
        0 <= j1 < c,
        0 <= j2 < c,
        i1 >= 0,
        i2 >= 0,
        i1 * c + j1 == i2 * c + j2,
    ensures
        i1 == i2 && j1 == j2,
{
}

/// A dense matrix with `num_rows * num_col` cells, stored row-major.
#[derive(Debug)]
pub struct Matrix<T> {
    /// Number of rows.
    pub num_rows: usize,
    /// Number of columns.
    pub num_col: usize,
    /// The cells, row-major; specifications speak of [`Matrix::entries`].
    pub data: Vec<T>,
}

impl<T> Matrix<T> {
    /// The backing buffer holds exactly one cell per position.
    pub open spec fn well_formed(self) -> bool {
        self.data@.len() == self.num_rows * self.num_col
    }

    /// The rows of the matrix, as a sequence of sequences.
    pub open spec fn entries(self) -> Seq<Seq<T>> {
        Seq::new(
            self.num_rows as nat,
            |i: int| Seq::new(self.num_col as nat, |j: int| self.data@[i * self.num_col + j]),
        )
    }
}

impl<T: Copy> Matrix<T> {
    /// A matrix of the given shape with every cell equal to `value`.
    pub fn repeat(r: usize, c: usize, value: T) -> (m: Matrix<T>)
        requires
            r * c <= usize::MAX,
        ensures
            m.well_formed(),
            m.num_rows == r,
            m.num_col == c,
            forall|i: int, j: int|
                0 <= i < r && 0 <= j < c ==> m.entries()[i][j] == value,
    {
        let total: usize = r * c;
        let mut data: Vec<T> = Vec::new();
        let mut k: usize = 0;
        while k < total
            invariant
                data@.len() == k <= total,
                forall|q: int| 0 <= q < k ==> data@[q] == value,
            decreases total - k,
        {
            data.push(value);
            k = k + 1;
        }
        let m = Matrix { num_rows: r, num_col: c, data };
        proof {
            assert forall|i: int, j: int|
                0 <= i < r && 0 <= j < c implies m.entries()[i][j] == value by {
                lemma_flat_index(i, j, r as int, c as int);
            }
        }
        m
    }

    /// Read the cell at `(i, j)`.
    pub fn get(&self, i: usize, j: usize) -> (v: T)
        requires
            self.well_formed(),
            i < self.num_rows,
            j < self.num_col,
        ensures
            v == self.entries()[i as int][j as int],
    {
        proof {
            lemma_flat_index(i as int, j as int, self.num_rows as int, self.num_col as int);
        }
        let _total: usize = self.data.len();
        self.data[i * self.num_col + j]
    }

    /// Write `v` into the cell at `(i, j)`.
    pub fn put(&mut self, i: usize, j: usize, v: T)
        requires
            old(self).well_formed(),
            i < old(self).num_rows,
            j < old(self).num_col,
        ensures
            final(self).well_formed(),
            final(self).num_rows == old(self).num_rows,
            final(self).num_col == old(self).num_col,
            final(self).entries() == old(self).entries().update(
                i as int,
                old(self).entries()[i as int].update(j as int, v),
            ),
    {
        proof {
            lemma_flat_index(i as int, j as int, self.num_rows as int, self.num_col as int);
        }
        let _total: usize = self.data.len();
        let idx: usize = i * self.num_col + j;
        self.data.set(idx, v);
        proof {
            let c = self.num_col as int;
            assert forall|p: int, q: int| 0 <= p < self.num_rows && 0 <= q < c implies
                self.entries()[p][q] == old(self).entries().update(
                i as int,
                old(self).entries()[i as int].update(j as int, v),
            )[p][q] by {
                lemma_flat_index(p, q, self.num_rows as int, c);
                if p * c + q == i as int * c + j as int {
                    lemma_flat_index_injective(p, q, i as int, j as int, c);
                }
            }
            assert(self.entries() =~~= old(self).entries().update(
                i as int,
                old(self).entries()[i as int].update(j as int, v),
            ));
        }
    }

    /// Swap rows `a` and `b` in place.
    pub fn swap_row(&mut self, a: usize, b: usize)
        requires
            old(self).well_formed(),
            a < old(self).num_rows,
            b < old(self).num_rows,
        ensures
            final(self).well_formed(),
            final(self).num_rows == old(self).num_rows,
            final(self).num_col == old(self).num_col,
            final(self).entries() == old(self).entries().update(
                a as int,
                old(self).entries()[b as int],
            ).update(b as int, old(self).entries()[a as int]),
    {
        let ghost start = *self;
        let mut j: usize = 0;
        while j < self.num_col
            invariant
                self.well_formed(),
                self.num_rows == start.num_rows,
                self.num_col == start.num_col,
                a < self.num_rows,
                b < self.num_rows,
                j <= self.num_col,
                start.well_formed(),
                forall|p: int, q: int|
                    0 <= p < self.num_rows && 0 <= q < self.num_col && p != a && p != b
                        ==> self.entries()[p][q] == start.entries()[p][q],
                forall|q: int|
                    0 <= q < j ==> self.entries()[a as int][q] == start.entries()[b as int][q],
                forall|q: int|
                    0 <= q < j ==> self.entries()[b as int][q] == start.entries()[a as int][q],
                forall|q: int|
                    j <= q < self.num_col ==> self.entries()[a as int][q] == start.entries()[a as int][q],
                forall|q: int|
                    j <= q < self.num_col ==> self.entries()[b as int][q] == start.entries()[b as int][q],
            decreases self.num_col - j,
    {
            let tmp: T = self.get(a, j);
            let vb: T = self.get(b, j);
            self.put(a, j, vb);
            self.put(b, j, tmp);
            j = j + 1;
        }
        proof {
            assert(self.entries() =~~= start.entries().update(
                a as int,
                start.entries()[b as int],
            ).update(b as int, start.entries()[a as int]));
        }
    }

    /// Append `vec`, a single-column matrix with matching row count, as a new
    /// rightmost column.
    pub fn augment(&mut self, vec: &Matrix<T>)
        requires
            old(self).well_formed(),
            vec.well_formed(),
            vec.num_rows == old(self).num_rows,
            vec.num_col == 1,
            old(self).num_col < usize::MAX,
            old(self).num_rows * (old(self).num_col + 1) <= usize::MAX,
        ensures
            final(self).well_formed(),
            final(self).num_rows == old(self).num_rows,
            final(self).num_col == old(self).num_col + 1,
            forall|i: int|
                0 <= i < old(self).num_rows ==> final(self).entries()[i] == old(
                    self,
                ).entries()[i].push(vec.entries()[i][0]),
    {
        let r: usize = self.num_rows;
        let c: usize = self.num_col;
        let c2: usize = c + 1;
        let mut data: Vec<T> = Vec::new();
        let mut i: usize = 0;
        while i < r
            invariant
                self.well_formed(),
                vec.well_formed(),
                self.num_rows == r,
                self.num_col == c,
                vec.num_rows == r,
                vec.num_col == 1,
                c2 == c + 1,
                r * c2 <= usize::MAX,
                i <= r,
                data@.len() == i * c2,
                forall|p: int, q: int|
                    0 <= p < i && 0 <= q < c ==> data@[p * c2 + q] == self.entries()[p][q],
                forall|p: int|
                    0 <= p < i ==> data@[p * c2 + c] == vec.entries()[p][0],
            decreases r - i,
        {
            proof {
                lemma_flat_index(i as int, 0, r as int, c2 as int);
                assert(i * c2 + c2 <= r * c2) by (nonlinear_arith)
                    requires
                        0 <= i < r,
                        c2 > 0,
                ;
            }
            let mut j: usize = 0;
            while j < c
                invariant
                    self.well_formed(),
                    self.num_rows == r,
                    self.num_col == c,
                    i < r,
                    j <= c,
                    c2 == c + 1,
                    i * c2 + c2 <= r * c2 <= usize::MAX,
                    data@.len() == i * c2 + j,
                    forall|p: int, q: int|
                        0 <= p < i && 0 <= q < c ==> data@[p * c2 + q] == self.entries()[p][q],
                    forall|p: int|
                        0 <= p < i ==> data@[p * c2 + c] == vec.entries()[p][0],
                    forall|q: int| 0 <= q < j ==> data@[i * c2 + q] == self.entries()[i as int][q],
                decreases c - j,
            {
                let v: T = self.get(i, j);
                data.push(v);
                j = j + 1;
                proof {
                    assert forall|p: int, q: int|
                        0 <= p < i && 0 <= q < c implies data@[p * c2 + q]
                        == self.entries()[p][q] by {
                        lemma_flat_index(p, q, i as int, c2 as int);
                    }
                    assert forall|p: int| 0 <= p < i implies data@[p * c2 + c]
                        == vec.entries()[p][0] by {
                        lemma_flat_index(p, c as int, i as int, c2 as int);
                    }
                }
            }
            data.push(vec.get(i, 0));
            i = i + 1;
            proof {
                assert((i - 1) * c2 + c2 == i * c2) by (nonlinear_arith);
                assert forall|p: int, q: int|
                    0 <= p < i && 0 <= q < c implies data@[p * c2 + q] == self.entries()[p][q] by {
                    if p < i - 1 {
                        lemma_flat_index(p, q, (i - 1) as int, c2 as int);
                    }
                }
                assert forall|p: int| 0 <= p < i implies data@[p * c2 + c]
                    == vec.entries()[p][0] by {
                    if p < i - 1 {
                        lemma_flat_index(p, c as int, (i - 1) as int, c2 as int);
                    }
                }
            }
        }
        self.data = data;
        self.num_col = c2;
        proof {
            let prev = old(self);
            assert forall|p: int|
                0 <= p < r implies self.entries()[p] == prev.entries()[p].push(
                vec.entries()[p][0],
            ) by {
                assert forall|q: int| 0 <= q < c2 implies self.entries()[p][q]
                    == prev.entries()[p].push(vec.entries()[p][0])[q] by {
                    lemma_flat_index(p, q, r as int, c2 as int);
                }
                assert(self.entries()[p] =~= prev.entries()[p].push(vec.entries()[p][0]));
            }
        }
    }
}


/// Failure of a linear solve.
#[derive(Debug, PartialEq, Eq, Structural, Clone, Copy)]
pub enum LinAlgError {
    /// The pivot search found an exactly zero pivot: the matrix is singular.
    SingularMatrix,
    /// The matrix is not square, or the right-hand side has the wrong shape.
    IncompatibleDimensions,
}

/// Column `0` of a single-column matrix, as a sequence.
pub open spec fn column_of(m: Matrix<u64>) -> Seq<u64> {
    Seq::new(m.num_rows as nat, |i: int| m.entries()[i][0])
}

/// Gaussian elimination with partial pivoting, for a right-hand side
/// carried as an `n × 1` matrix: the system goes to [`crate::linalg::solve`]
/// and the solution comes back as an `n × 1` matrix.
pub fn solve(a: Matrix<u64>, rhs: Matrix<u64>) -> (res: Result<Matrix<u64>, LinAlgError>)
    requires
        a.well_formed(),
        rhs.well_formed(),
        a.num_col < usize::MAX,
        a.num_rows * (a.num_col + 1) <= usize::MAX,
    ensures
        a.num_col != a.num_rows || rhs.num_rows != a.num_col || rhs.num_col != 1 ==> res
            == Result::<Matrix<u64>, LinAlgError>::Err(LinAlgError::IncompatibleDimensions),
        a.num_col == a.num_rows && rhs.num_rows == a.num_col && rhs.num_col == 1 ==> {
            &&& crate::linalg::ge_elim(a.entries(), column_of(rhs)) is None ==> res
                == Result::<Matrix<u64>, LinAlgError>::Err(LinAlgError::SingularMatrix)
            &&& crate::linalg::ge_elim(a.entries(), column_of(rhs)) is Some ==> res is Ok
                && res->Ok_0.well_formed() && res->Ok_0.num_rows == a.num_rows
                && res->Ok_0.num_col == 1 && column_of(res->Ok_0) == crate::linalg::ge_solution(
                a.entries(),
                column_of(rhs),
            )
        },
{
    if a.num_col != a.num_rows || rhs.num_rows != a.num_col || rhs.num_col != 1 {
        return Result::Err(LinAlgError::IncompatibleDimensions);
    }
    let n: usize = a.num_col;
    let mut b = crate::linalg::Vector::zeros(n);
    let mut i: usize = 0;
    while i < n
        invariant
            rhs.well_formed(),
            rhs.num_rows == n,
            rhs.num_col == 1,
            i <= n,
            b.vals().len() == n,
            forall|q: int| 0 <= q < i ==> b.vals()[q] == rhs.entries()[q][0],
        decreases n - i,
    {
        b.put(i, rhs.get(i, 0));
        i = i + 1;
    }
    proof {
        assert(b.vals() =~= column_of(rhs));
    }
    let dm = crate::linalg::DenseMatrix { m: a };
    match crate::linalg::solve(dm, b) {
        Result::Err(e) => match e {
            crate::linalg::LinAlgError::SingularMatrix => Result::Err(LinAlgError::SingularMatrix),
            crate::linalg::LinAlgError::IncompatibleDimensions => Result::Err(
                LinAlgError::IncompatibleDimensions,
            ),
        },
        Result::Ok(x) => {
            let ghost xv = x.vals();
            let out = Matrix { num_rows: n, num_col: 1, data: x.data };
            proof {
                assert(out.well_formed());
                assert forall|q: int| 0 <= q < n implies column_of(out)[q] == xv[q] by {
                    lemma_flat_index(q, 0, n as int, 1);
                }
                assert(column_of(out) =~= xv);
            }
            Result::Ok(out)
        },
    }
}

} // verus!
