//! Dense linear algebra over binary64 bit patterns: a matrix, a vector, and
//! Gaussian elimination with partial pivoting.
//!
//! The spec functions here mirror, operation for operation, what the solver
//! computes, so `solve`'s contract pins its result down to the exact bits.

use crate::fp::{
    abs_b, abs_of, add_b, add_of, div_b, div_of, gt_b, gt_of, is_finite_bits, is_nan_bits,
    is_zero_b, is_zero_bits, mul_b, mul_of, sign_bits, sub_b, sub_of, ZERO_BITS,
};
use crate::matrix::Matrix;
use vstd::prelude::*;

verus! {

/// Failure of a linear solve.
#[derive(Debug, PartialEq, Eq, Structural, Clone, Copy)]
pub enum LinAlgError {
    /// The pivot search found an exactly zero pivot: the matrix is singular.
    SingularMatrix,
    /// The matrix is not square, or the right-hand side has the wrong length.
    IncompatibleDimensions,
}

/// A dense matrix of binary64 bit patterns.
#[derive(Debug)]
pub struct DenseMatrix {
    /// The cells; specifications speak of [`DenseMatrix::rows`].
    pub m: Matrix<u64>,
}

/// A dense vector of binary64 bit patterns.
#[derive(Debug)]
pub struct Vector {
    /// The elements; specifications speak of [`Vector::vals`].
    pub data: Vec<u64>,
}

/// Every element of `v` is finite.
pub open spec fn all_finite(v: Seq<u64>) -> bool {
    forall|i: int| 0 <= i < v.len() ==> is_finite_bits(#[trigger] v[i])
}

impl Vector {
    /// The elements as a sequence.
    pub open spec fn vals(self) -> Seq<u64> {
        self.data@
    }

    /// An all-zero vector of the given length.
    pub fn zeros(len: usize) -> (v: Vector)
        ensures
            v.vals().len() == len,
            forall|i: int| 0 <= i < len ==> v.vals()[i] == ZERO_BITS,
    {
        let mut data: Vec<u64> = Vec::new();
        let mut k: usize = 0;
        while k < len
            invariant
                data@.len() == k <= len,
                forall|q: int| 0 <= q < k ==> data@[q] == ZERO_BITS,
            decreases len - k,
        {
            data.push(ZERO_BITS);
            k = k + 1;
        }
        Vector { data }
    }

    /// The number of elements.
    pub fn len(&self) -> (n: usize)
        ensures
            n == self.vals().len(),
    {
        self.data.len()
    }

    /// Read element `i`.
    pub fn get(&self, i: usize) -> (v: u64)
        requires
            i < self.vals().len(),
        ensures
            v == self.vals()[i as int],
    {
        self.data[i]
    }

    /// Write element `i`.
    pub fn put(&mut self, i: usize, v: u64)
        requires
            i < old(self).vals().len(),
        ensures
            final(self).vals() == old(self).vals().update(i as int, v),
    {
        self.data.set(i, v);
    }

    /// A copy with the same elements.
    pub fn duplicate(&self) -> (v: Vector)
        ensures
            v.vals() == self.vals(),
    {
        let n: usize = self.data.len();
        let mut data: Vec<u64> = Vec::new();
        let mut k: usize = 0;
        while k < n
            invariant
                n == self.vals().len(),
                data@.len() == k <= n,
                forall|q: int| 0 <= q < k ==> data@[q] == self.vals()[q],
            decreases n - k,
        {
            data.push(self.data[k]);
            k = k + 1;
        }
        proof {
            assert(data@ =~= self.vals());
        }
        Vector { data }
    }

    /// The accumulated sum of squares of `v[i..]`, starting from `acc`, in
    /// index order over the rounded operations.
    pub open spec fn sq_norm_from(v: Seq<u64>, i: int, acc: u64) -> u64
        decreases v.len() - i,
    {
        if 0 <= i < v.len() {
            Vector::sq_norm_from(v, i + 1, add_of(acc, mul_of(v[i], v[i])))
        } else {
            acc
        }
    }

    /// The accumulated sum of squared differences of `v[i..]` and `w[i..]`,
    /// starting from `acc`, in index order over the rounded operations.
    pub open spec fn sq_diff_from(v: Seq<u64>, w: Seq<u64>, i: int, acc: u64) -> u64
        decreases v.len() - i,
    {
        if 0 <= i < v.len() {
            Vector::sq_diff_from(
                v,
                w,
                i + 1,
                add_of(acc, mul_of(sub_of(v[i], w[i]), sub_of(v[i], w[i]))),
            )
        } else {
            acc
        }
    }

    /// The sum of the squares of the elements. On a vector of finite
    /// elements the result is a non-negative scalar: every square and every
    /// partial sum has a clear sign bit.
    pub fn squared_norm(&self) -> (r: u64)
        ensures
            r == Vector::sq_norm_from(self.vals(), 0, ZERO_BITS),
            all_finite(self.vals()) ==> !sign_bits(r),
    {
        let n: usize = self.data.len();
        let mut acc: u64 = ZERO_BITS;
        let mut i: usize = 0;
        proof {
            assert(!sign_bits(ZERO_BITS)) by (bit_vector);
        }
        while i < n
            invariant
                n == self.vals().len(),
                i <= n,
                Vector::sq_norm_from(self.vals(), i as int, acc) == Vector::sq_norm_from(
                    self.vals(),
                    0,
                    ZERO_BITS,
                ),
                all_finite(self.vals()) ==> !sign_bits(acc),
            decreases n - i,
        {
            let v: u64 = self.data[i];
            acc = add_b(acc, mul_b(v, v));
            i = i + 1;
        }
        acc
    }

    /// The sum of the squares of the elementwise differences: the standard
    /// squared Euclidean distance between two iterates, not a difference of
    /// norms. When the two vectors are identical and finite, the result is
    /// exactly `+0.0`; on finite vectors it is a non-negative scalar, since
    /// a finite difference is never NaN, its square has a clear sign bit,
    /// and so does every partial sum.
    pub fn squared_diff(&self, other: &Vector) -> (r: u64)
        requires
            other.vals().len() == self.vals().len(),
        ensures
            r == Vector::sq_diff_from(self.vals(), other.vals(), 0, ZERO_BITS),
            self.vals() == other.vals() && all_finite(self.vals()) ==> r == ZERO_BITS,
            all_finite(self.vals()) && all_finite(other.vals()) ==> !sign_bits(r),
    {
        let n: usize = self.data.len();
        let mut acc: u64 = ZERO_BITS;
        let mut i: usize = 0;
        proof {
            assert(!sign_bits(ZERO_BITS)) by (bit_vector);
        }
        while i < n
            invariant
                n == self.vals().len(),
                n == other.vals().len(),
                i <= n,
                Vector::sq_diff_from(self.vals(), other.vals(), i as int, acc)
                    == Vector::sq_diff_from(self.vals(), other.vals(), 0, ZERO_BITS),
                self.vals() == other.vals() && all_finite(self.vals()) ==> acc == ZERO_BITS,
                all_finite(self.vals()) && all_finite(other.vals()) ==> !sign_bits(acc),
            decreases n - i,
        {
            let d: u64 = sub_b(self.data[i], other.data[i]);
            acc = add_b(acc, mul_b(d, d));
            i = i + 1;
        }
        acc
    }
}

impl DenseMatrix {
    /// The rows of the matrix.
    pub open spec fn rows(self) -> Seq<Seq<u64>> {
        self.m.entries()
    }

    /// The backing buffer matches the shape.
    pub open spec fn wf(self) -> bool {
        self.m.well_formed()
    }

    /// An all-zero matrix of the given shape.
    pub fn zeros(r: usize, c: usize) -> (dm: DenseMatrix)
        requires
            r * c <= usize::MAX,
        ensures
            dm.wf(),
            dm.m.num_rows == r,
            dm.m.num_col == c,
            forall|i: int, j: int| 0 <= i < r && 0 <= j < c ==> dm.rows()[i][j] == ZERO_BITS,
    {
        DenseMatrix { m: Matrix::repeat(r, c, ZERO_BITS) }
    }

    /// Read the cell at `(i, j)`.
    pub fn get(&self, i: usize, j: usize) -> (v: u64)
        requires
            self.wf(),
            i < self.m.num_rows,
            j < self.m.num_col,
        ensures
            v == self.rows()[i as int][j as int],
    {
        self.m.get(i, j)
    }

    /// Write `v` into the cell at `(i, j)`.
    pub fn put(&mut self, i: usize, j: usize, v: u64)
        requires
            old(self).wf(),
            i < old(self).m.num_rows,
            j < old(self).m.num_col,
        ensures
            final(self).wf(),
            final(self).m.num_rows == old(self).m.num_rows,
            final(self).m.num_col == old(self).m.num_col,
            final(self).rows() == old(self).rows().update(
                i as int,
                old(self).rows()[i as int].update(j as int, v),
            ),
    {
        self.m.put(i, j, v);
    }

    /// Swap rows `a` and `b`.
    pub fn swap_row(&mut self, a: usize, b: usize)
        requires
            old(self).wf(),
            a < old(self).m.num_rows,
            b < old(self).m.num_rows,
        ensures
            final(self).wf(),
            final(self).m.num_rows == old(self).m.num_rows,
            final(self).m.num_col == old(self).m.num_col,
            final(self).rows() == old(self).rows().update(a as int, old(self).rows()[b as int])
                .update(b as int, old(self).rows()[a as int]),
    {
        self.m.swap_row(a, b);
    }

    /// Append `vec` as a new rightmost column.
    pub fn augment(&mut self, vec: &Vector)
        requires
            old(self).wf(),
            vec.vals().len() == old(self).m.num_rows,
            old(self).m.num_col < usize::MAX,
            old(self).m.num_rows * (old(self).m.num_col + 1) <= usize::MAX,
        ensures
            final(self).wf(),
            final(self).m.num_rows == old(self).m.num_rows,
            final(self).m.num_col == old(self).m.num_col + 1,
            final(self).rows() == aug_rows(old(self).rows(), vec.vals()),
    {
        let r: usize = self.m.num_rows;
        proof {
            assert(r * 1 <= r * (self.m.num_col + 1)) by (nonlinear_arith)
                requires
                    self.m.num_col >= 0,
                    r >= 0,
            ;
        }
        let mut col: Matrix<u64> = Matrix::repeat(r, 1, ZERO_BITS);
        let mut i: usize = 0;
        while i < r
            invariant
                col.well_formed(),
                col.num_rows == r,
                col.num_col == 1,
                i <= r,
                vec.vals().len() == r,
                forall|p: int| 0 <= p < i ==> col.entries()[p][0] == vec.vals()[p],
            decreases r - i,
        {
            let vv: u64 = vec.get(i);
            col.put(i, 0, vv);
            proof {
                assert(col.entries()[i as int][0] == vv);
            }
            i = i + 1;
            proof {
                assert forall|p: int| 0 <= p < i implies col.entries()[p][0]
                    == vec.vals()[p] by {}
            }
        }
        self.m.augment(&col);
        proof {
            let prev = old(self);
            assert forall|p: int| 0 <= p < r implies self.rows()[p] == aug_rows(
                prev.rows(),
                vec.vals(),
            )[p] by {
                assert(self.rows()[p] == prev.rows()[p].push(col.entries()[p][0]));
                assert(col.entries()[p][0] == vec.vals()[p]);
            }
            assert(self.rows() =~= aug_rows(prev.rows(), vec.vals()));
        }
    }
}

/// `a` with `b` appended to each row.
pub open spec fn aug_rows(a: Seq<Seq<u64>>, b: Seq<u64>) -> Seq<Seq<u64>> {
    Seq::new(a.len(), |i: int| a[i].push(b[i]))
}

/// The row holding the largest pivot candidate by absolute value: scan rows
/// `i..`, carrying the best row seen so far.
pub open spec fn pivot_scan(s: Seq<Seq<u64>>, k: int, i: int, best: int) -> int
    decreases s.len() - i,
{
    if 0 <= i < s.len() {
        let nb = if gt_of(abs_of(s[i][k]), abs_of(s[best][k])) {
            i
        } else {
            best
        };
        pivot_scan(s, k, i + 1, nb)
    } else {
        best
    }
}

/// Row `i` after elimination against pivot row `k`: columns beyond `k` are
/// reduced by the factor `s[i][k] / s[k][k]`, column `k` is zeroed.
pub open spec fn elim_row(s: Seq<Seq<u64>>, k: int, i: int) -> Seq<u64> {
    let f = div_of(s[i][k], s[k][k]);
    Seq::new(
        s[i].len(),
        |j: int|
            if j == k {
                ZERO_BITS
            } else if k < j {
                sub_of(s[i][j], mul_of(s[k][j], f))
            } else {
                s[i][j]
            },
    )
}

/// Eliminate column `k` from every row `i..`.
pub open spec fn elim_below(s: Seq<Seq<u64>>, k: int, i: int) -> Seq<Seq<u64>>
    decreases s.len() - i,
{
    if 0 <= i < s.len() {
        elim_below(s.update(i, elim_row(s, k, i)), k, i + 1)
    } else {
        s
    }
}

/// Forward elimination of an `n`-row system from column `k` on: pick the
/// pivot row by largest absolute value, fail on an exactly zero pivot, swap
/// it up, eliminate below, and continue. `None` is a singular matrix.
pub open spec fn elim_from(s: Seq<Seq<u64>>, n: int, k: int) -> Option<Seq<Seq<u64>>>
    decreases n - k,
{
    if 0 <= k < n {
        let im = pivot_scan(s, k, k + 1, k);
        if is_zero_bits(s[im][k]) {
            Option::None
        } else {
            let s1 = if im != k {
                s.update(k, s[im]).update(im, s[k])
            } else {
                s
            };
            elim_from(elim_below(s1, k, k + 1), n, k + 1)
        }
    } else {
        Option::Some(s)
    }
}

/// The back-substituted unknown `x[i]` of an eliminated augmented matrix.
pub open spec fn back_val(s: Seq<Seq<u64>>, i: int) -> u64
    decreases s.len() - i, 1int, 0int,
{
    if 0 <= i < s.len() {
        div_of(back_acc(s, i, i + 1, s[i][s.len() as int]), s[i][i])
    } else {
        ZERO_BITS
    }
}

/// The running value of `x[i]` while the products `s[i][j] * x[j]` for
/// `j >= max(i+1, j0)` are being subtracted, in index order.
pub open spec fn back_acc(s: Seq<Seq<u64>>, i: int, j: int, acc: u64) -> u64
    decreases s.len() - i, 0int, s.len() + 1 - j,
{
    if 0 <= i < j && j < s.len() {
        back_acc(s, i, j + 1, sub_of(acc, mul_of(s[i][j], back_val(s, j))))
    } else {
        acc
    }
}

/// The eliminated augmented matrix of the system `a x = b`, if no pivot was
/// exactly zero.
pub open spec fn ge_elim(a: Seq<Seq<u64>>, b: Seq<u64>) -> Option<Seq<Seq<u64>>> {
    elim_from(aug_rows(a, b), a.len() as int, 0)
}

/// The solution read off the eliminated matrix by back-substitution.
pub open spec fn ge_solution(a: Seq<Seq<u64>>, b: Seq<u64>) -> Seq<u64> {
    let s = ge_elim(a, b).unwrap();
    Seq::new(s.len(), |i: int| back_val(s, i))
}

/// What `solve` returns on a square system: the back-substituted solution,
/// or `SingularMatrix` when elimination met an exactly zero pivot.
pub open spec fn ge_result(a: Seq<Seq<u64>>, b: Seq<u64>) -> Result<Seq<u64>, LinAlgError> {
    match ge_elim(a, b) {
        Option::Some(_) => Result::Ok(ge_solution(a, b)),
        Option::None => Result::Err(LinAlgError::SingularMatrix),
    }
}

/// The shapes of `a` and `rhs` form a square system.
pub open spec fn solve_dims_ok(a: DenseMatrix, rhs: Vector) -> bool {
    a.m.num_col == a.m.num_rows && rhs.vals().len() == a.m.num_col
}

/// Gaussian elimination with partial pivoting on the augmented matrix
/// `[a | rhs]`, followed by back-substitution. The result is exactly
/// [`ge_result`] of the inputs.
pub fn solve(a: DenseMatrix, rhs: Vector) -> (res: Result<Vector, LinAlgError>)
    requires
        a.wf(),
        a.m.num_col < usize::MAX,
        a.m.num_rows * (a.m.num_col + 1) <= usize::MAX,
    ensures
        !solve_dims_ok(a, rhs) ==> res == Result::<Vector, LinAlgError>::Err(
            LinAlgError::IncompatibleDimensions,
        ),
        solve_dims_ok(a, rhs) && ge_elim(a.rows(), rhs.vals()) is None ==> res
            == Result::<Vector, LinAlgError>::Err(LinAlgError::SingularMatrix),
        solve_dims_ok(a, rhs) && ge_elim(a.rows(), rhs.vals()) is Some ==> res is Ok
            && res->Ok_0.vals() == ge_solution(a.rows(), rhs.vals()),
        res is Ok ==> res->Ok_0.vals().len() == a.m.num_rows,
{
    if a.m.num_col != a.m.num_rows || rhs.len() != a.m.num_col {
        return Result::Err(LinAlgError::IncompatibleDimensions);
    }
    let n: usize = a.m.num_col;
    let ghost a0 = a.rows();
    let ghost b0 = rhs.vals();
    proof {
        assert(solve_dims_ok(a, rhs));
    }
    let mut system = a;
    system.augment(&rhs);
    let ghost s0 = system.rows();
    proof {
        assert(s0 == aug_rows(a0, b0));
    }

    let mut k: usize = 0;
    while k < n
        invariant
            system.wf(),
            system.m.num_rows == n,
            system.m.num_col == n + 1,
            n < usize::MAX,
            k <= n,
            elim_from(system.rows(), n as int, k as int) == elim_from(s0, n as int, 0),
            s0 == aug_rows(a0, b0),
            a0 == a.rows() && b0 == rhs.vals(),
            a0.len() == n && b0.len() == n,
            solve_dims_ok(a, rhs),
        decreases n - k,
    {
        let mut i_max: usize = k;
        let mut v_max: u64 = abs_b(system.get(k, k));
        let mut i: usize = k + 1;
        while i < n
            invariant
                system.wf(),
                system.m.num_rows == n,
                system.m.num_col == n + 1,
                k < n,
                k <= i_max < n,
                k + 1 <= i <= n,
                v_max == abs_of(system.rows()[i_max as int][k as int]),
                pivot_scan(system.rows(), k as int, i as int, i_max as int) == pivot_scan(
                    system.rows(),
                    k as int,
                    k + 1,
                    k as int,
                ),
            decreases n - i,
        {
            let av: u64 = abs_b(system.get(i, k));
            if gt_b(av, v_max) {
                v_max = av;
                i_max = i;
            }
            i = i + 1;
        }
        let ghost s_pre = system.rows();
        proof {
            assert(pivot_scan(s_pre, k as int, n as int, i_max as int) == i_max as int);
            assert(pivot_scan(s_pre, k as int, k + 1, k as int) == i_max as int);
        }

        if is_zero_b(system.get(i_max, k)) {
            proof {
                assert(elim_from(s_pre, n as int, k as int) is None);
                assert(elim_from(s0, n as int, 0) is None);
                assert(s0 == aug_rows(a0, b0));
                assert(a0.len() == n);
                assert(ge_elim(a0, b0) is None);
                assert(solve_dims_ok(a, rhs));
                assert(ge_elim(a.rows(), rhs.vals()) is None);
            }
            return Result::Err(LinAlgError::SingularMatrix);
        }

        if i_max != k {
            system.swap_row(k, i_max);
        }
        let ghost s_swapped = system.rows();
        proof {
            assert(s_swapped == if i_max != k {
                s_pre.update(k as int, s_pre[i_max as int]).update(i_max as int, s_pre[k as int])
            } else {
                s_pre
            });
        }

        let mut i2: usize = k + 1;
        while i2 < n
            invariant
                system.wf(),
                system.m.num_rows == n,
                system.m.num_col == n + 1,
                k < n,
                k + 1 <= i2 <= n,
                elim_below(system.rows(), k as int, i2 as int) == elim_below(
                    s_swapped,
                    k as int,
                    k + 1,
                ),
                forall|p: int| 0 <= p <= k ==> system.rows()[p] == s_swapped[p],
            decreases n - i2,
        {
            let ghost before = system.rows();
            let f: u64 = div_b(system.get(i2, k), system.get(k, k));
            let mut j: usize = k + 1;
            while j < n + 1
                invariant
                    system.wf(),
                    system.m.num_rows == n,
                    system.m.num_col == n + 1,
                    k < n,
                    k < i2 < n,
                    k + 1 <= j <= n + 1,
                    f == div_of(before[i2 as int][k as int], before[k as int][k as int]),
                    forall|p: int| 0 <= p < n && p != i2 ==> system.rows()[p] == before[p],
                    forall|q: int|
                        0 <= q < n + 1 && !(k < q < j) ==> system.rows()[i2 as int][q]
                            == before[i2 as int][q],
                    forall|q: int|
                        k < q < j ==> system.rows()[i2 as int][q] == sub_of(
                            before[i2 as int][q],
                            mul_of(before[k as int][q], f),
                        ),
                decreases n + 1 - j,
            {
                let val: u64 = sub_b(system.get(i2, j), mul_b(system.get(k, j), f));
                system.put(i2, j, val);
                j = j + 1;
            }
            system.put(i2, k, ZERO_BITS);
            proof {
                assert(system.rows()[i2 as int] =~= elim_row(before, k as int, i2 as int));
                assert(system.rows() =~= before.update(
                    i2 as int,
                    elim_row(before, k as int, i2 as int),
                ));
            }
            i2 = i2 + 1;
        }
        proof {
            assert(elim_below(system.rows(), k as int, n as int) == system.rows());
            assert(system.rows() == elim_below(s_swapped, k as int, k + 1));
            assert(elim_from(s_pre, n as int, k as int) == elim_from(
                elim_below(s_swapped, k as int, k + 1),
                n as int,
                k + 1,
            ));
            assert(elim_from(s0, n as int, 0) == elim_from(system.rows(), n as int, k + 1));
        }
        k = k + 1;
    }
    proof {
        assert(elim_from(system.rows(), n as int, n as int) == Option::Some(system.rows()));
    }
    let ghost s_final = system.rows();

    let mut x = Vector::zeros(n);
    let mut i3: usize = n;
    while i3 > 0
        invariant
            system.wf(),
            system.m.num_rows == n,
            system.m.num_col == n + 1,
            system.rows() == s_final,
            i3 <= n,
            x.vals().len() == n,
            forall|t: int| i3 <= t < n ==> x.vals()[t] == back_val(s_final, t),
            elim_from(s0, n as int, 0) == Option::Some(s_final),
            s0 == aug_rows(a0, b0),
            a0 == a.rows() && b0 == rhs.vals(),
            a0.len() == n && b0.len() == n,
            solve_dims_ok(a, rhs),
        decreases i3,
    {
        i3 = i3 - 1;
        let mut acc: u64 = system.get(i3, n);
        let mut j: usize = i3 + 1;
        while j < n
            invariant
                system.wf(),
                system.m.num_rows == n,
                system.m.num_col == n + 1,
                system.rows() == s_final,
                i3 < n,
                i3 + 1 <= j <= n,
                x.vals().len() == n,
                forall|t: int| i3 < t < n ==> x.vals()[t] == back_val(s_final, t),
                back_acc(s_final, i3 as int, j as int, acc) == back_acc(
                    s_final,
                    i3 as int,
                    i3 + 1,
                    s_final[i3 as int][n as int],
                ),
            decreases n - j,
        {
            let ghost acc0 = acc;
            let ghost j0 = j as int;
            proof {
                assert(x.vals()[j as int] == back_val(s_final, j as int));
            }
            acc = sub_b(acc, mul_b(system.get(i3, j), x.get(j)));
            j = j + 1;
            proof {
                assert(back_acc(s_final, i3 as int, j0, acc0) == back_acc(
                    s_final,
                    i3 as int,
                    j0 + 1,
                    acc,
                ));
            }
        }
        let quot: u64 = div_b(acc, system.get(i3, i3));
        x.put(i3, quot);
        proof {
            assert(back_acc(s_final, i3 as int, n as int, acc) == acc);
            assert(back_val(s_final, i3 as int) == div_of(
                back_acc(s_final, i3 as int, i3 + 1, s_final[i3 as int][n as int]),
                s_final[i3 as int][i3 as int],
            ));
            assert(x.vals()[i3 as int] == back_val(s_final, i3 as int));
        }
    }
    proof {
        assert(elim_from(s0, n as int, 0) == Option::Some(s_final));
        assert(aug_rows(a0, b0).len() == n);
        assert(ge_elim(a0, b0) == Option::Some(s_final));
        assert(x.vals() =~= ge_solution(a0, b0));
    }
    Result::Ok(x)
}

} // verus!
