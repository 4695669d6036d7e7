//! A coordinate-format (COO) sparse accumulator: a sequence of `(row, col,
//! val)` triples kept sorted and deduplicated by `(row, col)`, so that
//! repeated contributions to one cell are summed as they arrive.
//!
//! Specifications speak of [`CooMatrix::cells`], the partial map from
//! coordinates to the stored bit patterns; [`madd`] is what one `add` call
//! does to that map.

use crate::fp::{add_b, add_of, ZERO_BITS};
use crate::linalg::DenseMatrix;
use vstd::prelude::*;

verus! {

/// One stored cell of a COO matrix.
#[derive(Debug, Clone, Copy)]
pub struct CooEntry {
    /// Row index.
    pub row: usize,
    /// Column index.
    pub col: usize,
    /// The accumulated value at this cell.
    pub val: u64,
}

/// The ordering key `(row, col)` of `a` is strictly below that of `b`.
pub open spec fn key_lt(a: CooEntry, b: CooEntry) -> bool {
    a.row < b.row || (a.row == b.row && a.col < b.col)
}

/// Position `p` of `s` stores the cell `(r, c)`.
pub open spec fn has_key_at(s: Seq<CooEntry>, r: int, c: int, p: int) -> bool {
    0 <= p < s.len() && s[p].row == r && s[p].col == c
}

/// Some position of `s` stores the cell `(r, c)`.
pub open spec fn has_key(s: Seq<CooEntry>, r: int, c: int) -> bool {
    exists|p: int| has_key_at(s, r, c, p)
}

/// The position of `s` storing the cell `(r, c)`, where there is one.
pub open spec fn idx_of(s: Seq<CooEntry>, r: int, c: int) -> int {
    choose|p: int| has_key_at(s, r, c, p)
}

/// The partial map from coordinates to stored values of a sorted,
/// deduplicated entry sequence.
pub open spec fn cells_of(s: Seq<CooEntry>) -> Map<(int, int), u64> {
    Map::new(
        |rc: (int, int)| has_key(s, rc.0, rc.1),
        |rc: (int, int)| s[idx_of(s, rc.0, rc.1)].val,
    )
}

/// What one `add(r, c, v)` call does to the cell map: a fresh cell stores
/// `v`; an existing cell accumulates `add_of(old, v)`.
pub open spec fn madd(m: Map<(int, int), u64>, r: int, c: int, v: u64) -> Map<(int, int), u64> {
    if m.dom().contains((r, c)) {
        m.insert((r, c), add_of(m[(r, c)], v))
    } else {
        m.insert((r, c), v)
    }
}

/// A COO sparse matrix.
#[derive(Debug)]
pub struct CooMatrix {
    /// Number of rows.
    pub num_row: usize,
    /// Number of columns.
    pub num_col: usize,
    /// The stored cells; specifications speak of [`CooMatrix::cells`].
    pub entries: Vec<CooEntry>,
}

impl CooMatrix {
    /// The entries are sorted strictly by `(row, col)` — hence deduplicated —
    /// and lie inside the matrix shape.
    pub open spec fn wf(self) -> bool {
        &&& forall|p: int, q: int|
            0 <= p < q < self.entries@.len() ==> key_lt(
                #[trigger] self.entries@[p],
                #[trigger] self.entries@[q],
            )
        &&& forall|p: int|
            0 <= p < self.entries@.len() ==> (#[trigger] self.entries@[p]).row < self.num_row
                && self.entries@[p].col < self.num_col
    }

    /// The cell map.
    pub open spec fn cells(self) -> Map<(int, int), u64> {
        cells_of(self.entries@)
    }

    /// An empty matrix of the given shape.
    pub fn new(r: usize, c: usize) -> (m: CooMatrix)
        ensures
            m.wf(),
            m.num_row == r,
            m.num_col == c,
            m.cells() == Map::<(int, int), u64>::empty(),
    {
        let m = CooMatrix { num_row: r, num_col: c, entries: Vec::new() };
        proof {
            assert(m.cells() =~= Map::<(int, int), u64>::empty());
        }
        m
    }

    /// Accumulate `val` into the cell `(row, col)`: locate the entry by
    /// binary search over the ordering key; add into it where present,
    /// insert a fresh entry at the sorted position where not.
    pub fn add(&mut self, row: usize, col: usize, val: u64)
        requires
            old(self).wf(),
            row < old(self).num_row,
            col < old(self).num_col,
        ensures
            final(self).wf(),
            final(self).num_row == old(self).num_row,
            final(self).num_col == old(self).num_col,
            final(self).cells() == madd(old(self).cells(), row as int, col as int, val),
    {
        let ghost s0 = self.entries@;
        let mut lo: usize = 0;
        let mut hi: usize = self.entries.len();
        while lo < hi
            invariant
                self == old(self),
                old(self).wf(),
                s0 == self.entries@,
                row < old(self).num_row,
                col < old(self).num_col,
                lo <= hi <= self.entries@.len(),
                forall|p: int|
                    0 <= p < lo ==> key_lt(
                        #[trigger] self.entries@[p],
                        CooEntry { row, col, val },
                    ),
                forall|p: int|
                    hi <= p < self.entries@.len() ==> key_lt(
                        CooEntry { row, col, val },
                        #[trigger] self.entries@[p],
                    ),
            decreases hi - lo,
        {
            let mid: usize = lo + (hi - lo) / 2;
            let e: CooEntry = self.entries[mid];
            if e.row < row || (e.row == row && e.col < col) {
                lo = mid + 1;
            } else if e.row == row && e.col == col {
                let sum: u64 = add_b(e.val, val);
                self.entries.set(mid, CooEntry { row, col, val: sum });
                proof {
                    let rr = row as int;
                    let cc = col as int;
                    assert(has_key_at(s0, rr, cc, mid as int));
                    assert forall|p: int, q: int|
                        0 <= p < q < self.entries@.len() implies key_lt(
                        #[trigger] self.entries@[p],
                        #[trigger] self.entries@[q],
                    ) by {
                        assert(key_lt(s0[p], s0[q]));
                    }
                    assert forall|rc: (int, int)| #[trigger]
                        cells_of(self.entries@).dom().contains(rc)
                            || cells_of(s0).dom().contains(rc) implies {
                        &&& cells_of(self.entries@).dom().contains(rc) == madd(
                            cells_of(s0),
                            rr,
                            cc,
                            val,
                        ).dom().contains(rc)
                        &&& cells_of(self.entries@).dom().contains(rc)
                            ==> cells_of(self.entries@)[rc] == madd(cells_of(s0), rr, cc, val)[rc]
                    } by {
                        if rc == (rr, cc) {
                            assert(has_key_at(self.entries@, rr, cc, mid as int));
                            let w = idx_of(self.entries@, rr, cc);
                            assert(has_key_at(self.entries@, rr, cc, w));
                            if w != mid as int {
                                if w < mid as int {
                                    assert(key_lt(self.entries@[w], self.entries@[mid as int]));
                                } else {
                                    assert(key_lt(self.entries@[mid as int], self.entries@[w]));
                                }
                                assert(false);
                            }
                            let w0 = idx_of(s0, rr, cc);
                            assert(has_key_at(s0, rr, cc, w0));
                            if w0 != mid as int {
                                if w0 < mid as int {
                                    assert(key_lt(s0[w0], s0[mid as int]));
                                } else {
                                    assert(key_lt(s0[mid as int], s0[w0]));
                                }
                                assert(false);
                            }
                        } else {
                            if has_key(self.entries@, rc.0, rc.1) {
                                let w = idx_of(self.entries@, rc.0, rc.1);
                                assert(has_key_at(self.entries@, rc.0, rc.1, w));
                                assert(w != mid as int);
                                assert(has_key_at(s0, rc.0, rc.1, w));
                            }
                            if has_key(s0, rc.0, rc.1) {
                                let w = idx_of(s0, rc.0, rc.1);
                                assert(has_key_at(s0, rc.0, rc.1, w));
                                assert(w != mid as int);
                                assert(has_key_at(self.entries@, rc.0, rc.1, w));
                            }
                            if cells_of(self.entries@).dom().contains(rc) {
                                let w = idx_of(self.entries@, rc.0, rc.1);
                                let w0 = idx_of(s0, rc.0, rc.1);
                                assert(has_key_at(self.entries@, rc.0, rc.1, w));
                                assert(has_key_at(s0, rc.0, rc.1, w0));
                                if w != w0 {
                                    if w < w0 {
                                        assert(key_lt(s0[w], s0[w0]));
                                    } else {
                                        assert(key_lt(s0[w0], s0[w]));
                                    }
                                    assert(false);
                                }
                            }
                        }
                    }
                    assert(cells_of(self.entries@) =~= madd(cells_of(s0), rr, cc, val));
                }
                return ;
            } else {
                hi = mid;
            }
        }
        let e = CooEntry { row, col, val };
        self.entries.insert(lo, e);
        proof {
            let rr = row as int;
            let cc = col as int;
            let s1 = self.entries@;
            let li = lo as int;
            assert(s1 == s0.insert(li, e));
            assert(forall|p: int| 0 <= p < li ==> s1[p] == s0[p]);
            assert(forall|p: int| li < p < s1.len() ==> s1[p] == s0[p - 1]);
            assert(!has_key(s0, rr, cc)) by {
                if has_key(s0, rr, cc) {
                    let w = idx_of(s0, rr, cc);
                    assert(has_key_at(s0, rr, cc, w));
                    if w < li {
                        assert(key_lt(s0[w], e));
                    } else {
                        assert(key_lt(e, s0[w]));
                    }
                    assert(false);
                }
            }
            assert forall|p: int, q: int| 0 <= p < q < s1.len() implies key_lt(
                #[trigger] s1[p],
                #[trigger] s1[q],
            ) by {
                if p < li && q > li {
                    assert(key_lt(s0[p], e));
                    assert(key_lt(e, s0[q - 1]));
                    assert(s0[p].row <= e.row);
                }
            }
            assert forall|rc: (int, int)| #[trigger] cells_of(s1).dom().contains(rc) || cells_of(
                s0,
            ).dom().contains(rc) || rc == (rr, cc) implies {
                &&& cells_of(s1).dom().contains(rc) == madd(cells_of(s0), rr, cc, val)
                    .dom().contains(rc)
                &&& cells_of(s1).dom().contains(rc) ==> cells_of(s1)[rc] == madd(
                    cells_of(s0),
                    rr,
                    cc,
                    val,
                )[rc]
            } by {
                if rc == (rr, cc) {
                    assert(has_key_at(s1, rr, cc, li));
                    let w = idx_of(s1, rr, cc);
                    assert(has_key_at(s1, rr, cc, w));
                    if w != li {
                        if w < li {
                            assert(key_lt(s1[w], s1[li]));
                        } else {
                            assert(key_lt(s1[li], s1[w]));
                        }
                        assert(false);
                    }
                } else {
                    if has_key(s1, rc.0, rc.1) {
                        let w = idx_of(s1, rc.0, rc.1);
                        assert(has_key_at(s1, rc.0, rc.1, w));
                        assert(w != li);
                        if w < li {
                            assert(has_key_at(s0, rc.0, rc.1, w));
                        } else {
                            assert(has_key_at(s0, rc.0, rc.1, w - 1));
                        }
                    }
                    if has_key(s0, rc.0, rc.1) {
                        let w = idx_of(s0, rc.0, rc.1);
                        assert(has_key_at(s0, rc.0, rc.1, w));
                        if w < li {
                            assert(has_key_at(s1, rc.0, rc.1, w));
                        } else {
                            assert(has_key_at(s1, rc.0, rc.1, w + 1));
                        }
                    }
                    if cells_of(s1).dom().contains(rc) {
                        let w = idx_of(s1, rc.0, rc.1);
                        let w0 = idx_of(s0, rc.0, rc.1);
                        assert(has_key_at(s1, rc.0, rc.1, w));
                        assert(has_key_at(s0, rc.0, rc.1, w0));
                        let w0s = if w0 < li {
                            w0
                        } else {
                            w0 + 1
                        };
                        assert(has_key_at(s1, rc.0, rc.1, w0s));
                        assert(s1[w0s].val == s0[w0].val);
                        if w != w0s {
                            if w < w0s {
                                assert(key_lt(s1[w], s1[w0s]));
                            } else {
                                assert(key_lt(s1[w0s], s1[w]));
                            }
                            assert(false);
                        }
                    }
                }
            }
            assert(cells_of(s1) =~= madd(cells_of(s0), rr, cc, val));
        }
    }

    /// The stored entries, sorted by `(row, col)`.
    pub fn iter(&self) -> (r: &Vec<CooEntry>)
        ensures
            r@ == self.entries@,
    {
        &self.entries
    }

    /// A copy with the same shape and cells.
    pub fn duplicate(&self) -> (m: CooMatrix)
        ensures
            m.num_row == self.num_row,
            m.num_col == self.num_col,
            m.entries@ == self.entries@,
            m.entries@ == self.entries@,
            self.wf() ==> m.wf(),
            m.cells() == self.cells(),
    {
        let n: usize = self.entries.len();
        let mut entries: Vec<CooEntry> = Vec::new();
        let mut k: usize = 0;
        while k < n
            invariant
                n == self.entries@.len(),
                entries@.len() == k <= n,
                forall|q: int| 0 <= q < k ==> entries@[q] == self.entries@[q],
            decreases n - k,
        {
            entries.push(self.entries[k]);
            k = k + 1;
        }
        proof {
            assert(entries@ =~= self.entries@);
        }
        let m = CooMatrix { num_row: self.num_row, num_col: self.num_col, entries };
        proof {
            assert(m.cells() == self.cells());
            if self.wf() {
                assert forall|p: int, q: int|
                    0 <= p < q < m.entries@.len() implies key_lt(
                    #[trigger] m.entries@[p],
                    #[trigger] m.entries@[q],
                ) by {
                    assert(key_lt(self.entries@[p], self.entries@[q]));
                }
                assert forall|p: int|
                    0 <= p < m.entries@.len() implies (#[trigger] m.entries@[p]).row < m.num_row
                    && m.entries@[p].col < m.num_col by {
                    assert(self.entries@[p].row < self.num_row);
                }
            }
        }
        m
    }

    /// Materialise the dense matrix: stored cells keep their values, all
    /// other cells are `+0.0`.
    pub fn to_dense(&self) -> (d: DenseMatrix)
        requires
            self.wf(),
            self.num_row * self.num_col <= usize::MAX,
        ensures
            d.wf(),
            d.m.num_rows == self.num_row,
            d.m.num_col == self.num_col,
            forall|r: int, c: int|
                0 <= r < self.num_row && 0 <= c < self.num_col ==> d.rows()[r][c] == (
                if self.cells().dom().contains((r, c)) {
                    self.cells()[(r, c)]
                } else {
                    ZERO_BITS
                }),
    {
        let mut d = DenseMatrix::zeros(self.num_row, self.num_col);
        let n: usize = self.entries.len();
        let mut k: usize = 0;
        while k < n
            invariant
                self.wf(),
                n == self.entries@.len(),
                k <= n,
                d.wf(),
                d.m.num_rows == self.num_row,
                d.m.num_col == self.num_col,
                forall|r: int, c: int|
                    0 <= r < self.num_row && 0 <= c < self.num_col ==> d.rows()[r][c] == (
                    if exists|p: int| 0 <= p < k && has_key_at(self.entries@, r, c, p) {
                        self.entries@[choose|p: int|
                            0 <= p < k && has_key_at(self.entries@, r, c, p)].val
                    } else {
                        ZERO_BITS
                    }),
            decreases n - k,
        {
            let e: CooEntry = self.entries[k];
            d.put(e.row, e.col, e.val);
            k = k + 1;
            proof {
                let s = self.entries@;
                assert forall|r: int, c: int|
                    0 <= r < self.num_row && 0 <= c < self.num_col implies d.rows()[r][c] == (
                    if exists|p: int| 0 <= p < k && has_key_at(s, r, c, p) {
                        s[choose|p: int| 0 <= p < k && has_key_at(s, r, c, p)].val
                    } else {
                        ZERO_BITS
                    }) by {
                    if r == e.row && c == e.col {
                        assert(has_key_at(s, r, c, k - 1));
                        let w = choose|p: int| 0 <= p < k && has_key_at(s, r, c, p);
                        assert(has_key_at(s, r, c, w));
                        if w != k - 1 {
                            if w < k - 1 {
                                assert(key_lt(s[w], s[k - 1]));
                            } else {
                                assert(key_lt(s[k - 1], s[w]));
                            }
                            assert(false);
                        }
                    } else {
                        if exists|p: int| 0 <= p < k && has_key_at(s, r, c, p) {
                            let w = choose|p: int| 0 <= p < k && has_key_at(s, r, c, p);
                            assert(has_key_at(s, r, c, w));
                            assert(w != k - 1);
                            assert(exists|p: int| 0 <= p < k - 1 && has_key_at(s, r, c, p));
                            let w2 = choose|p: int| 0 <= p < k - 1 && has_key_at(s, r, c, p);
                            assert(has_key_at(s, r, c, w2));
                            if w2 != w {
                                if w2 < w {
                                    assert(key_lt(s[w2], s[w]));
                                } else {
                                    assert(key_lt(s[w], s[w2]));
                                }
                                assert(false);
                            }
                        } else {
                            assert(!(exists|p: int| 0 <= p < k - 1 && has_key_at(s, r, c, p)));
                        }
                    }
                }
            }
        }
        proof {
            let s = self.entries@;
            assert forall|r: int, c: int|
                0 <= r < self.num_row && 0 <= c < self.num_col implies d.rows()[r][c] == (
                if self.cells().dom().contains((r, c)) {
                    self.cells()[(r, c)]
                } else {
                    ZERO_BITS
                }) by {
                if has_key(s, r, c) {
                    let w = idx_of(s, r, c);
                    assert(has_key_at(s, r, c, w));
                    assert(exists|p: int| 0 <= p < n && has_key_at(s, r, c, p));
                    let w2 = choose|p: int| 0 <= p < n && has_key_at(s, r, c, p);
                    assert(has_key_at(s, r, c, w2));
                    if w2 != w {
                        if w2 < w {
                            assert(key_lt(s[w2], s[w]));
                        } else {
                            assert(key_lt(s[w], s[w2]));
                        }
                        assert(false);
                    }
                }
            }
        }
        d
    }
}


/// The adds of `ts`, applied in order starting from the cell map `m`.
pub open spec fn apply_adds(m: Map<(int, int), u64>, ts: Seq<(usize, usize, u64)>) -> Map<
    (int, int),
    u64,
>
    decreases ts.len(),
{
    if ts.len() == 0 {
        m
    } else {
        apply_adds(madd(m, ts[0].0 as int, ts[0].1 as int, ts[0].2), ts.drop_first())
    }
}

/// The values among `ts` aimed at the cell `(r, c)`, in call order.
pub open spec fn vals_for(ts: Seq<(usize, usize, u64)>, r: int, c: int) -> Seq<u64>
    decreases ts.len(),
{
    if ts.len() == 0 {
        Seq::empty()
    } else {
        let rest = vals_for(ts.drop_first(), r, c);
        if ts[0].0 == r && ts[0].1 == c {
            seq![ts[0].2] + rest
        } else {
            rest
        }
    }
}

/// `vs` accumulated in order onto an optional prior value: the first value
/// lands as it is where there was none, every further one through the
/// rounded addition.
pub open spec fn folded_sum(o: Option<u64>, vs: Seq<u64>) -> Option<u64>
    decreases vs.len(),
{
    if vs.len() == 0 {
        o
    } else {
        let first = match o {
            Option::Some(x) => add_of(x, vs[0]),
            Option::None => vs[0],
        };
        folded_sum(Option::Some(first), vs.drop_first())
    }
}

/// The value stored at `(r, c)`, if any.
pub open spec fn cell_at(m: Map<(int, int), u64>, r: int, c: int) -> Option<u64> {
    if m.dom().contains((r, c)) {
        Option::Some(m[(r, c)])
    } else {
        Option::None
    }
}

/// After any sequence of `add` calls, a cell holds exactly the ordered
/// accumulation of the values aimed at it: contributions to other cells,
/// wherever they stand in the sequence, do not affect it. Together with
/// `to_dense`, whose cell `(r, c)` is the stored value or `+0.0`, this pins
/// the dense cell to the accumulated sum of its own contributions.
pub proof fn lemma_adds_cell(m: Map<(int, int), u64>, ts: Seq<(usize, usize, u64)>, r: int, c: int)
    ensures
        cell_at(apply_adds(m, ts), r, c) == folded_sum(cell_at(m, r, c), vals_for(ts, r, c)),
    decreases ts.len(),
{
    if ts.len() != 0 {
        let m1 = madd(m, ts[0].0 as int, ts[0].1 as int, ts[0].2);
        lemma_adds_cell(m1, ts.drop_first(), r, c);
        if ts[0].0 == r && ts[0].1 == c {
            let vs = vals_for(ts, r, c);
            assert(vs.drop_first() =~= vals_for(ts.drop_first(), r, c));
        } else {
            assert(cell_at(m1, r, c) == cell_at(m, r, c));
        }
    }
}

/// Two add sequences that aim the same values, in the same order, at the
/// cell `(r, c)` leave the same value there when applied from empty — the
/// cell is independent of how the two sequences interleave other cells.
pub proof fn lemma_adds_order_independent(
    ts1: Seq<(usize, usize, u64)>,
    ts2: Seq<(usize, usize, u64)>,
    r: int,
    c: int,
)
    requires
        vals_for(ts1, r, c) == vals_for(ts2, r, c),
    ensures
        cell_at(apply_adds(Map::empty(), ts1), r, c) == cell_at(
            apply_adds(Map::empty(), ts2),
            r,
            c,
        ),
{
    lemma_adds_cell(Map::empty(), ts1, r, c);
    lemma_adds_cell(Map::empty(), ts2, r, c);
    assert(cell_at(Map::empty(), r, c) == Option::<u64>::None);
}

} // verus!
