//! The DC operating-point driver: Modified Nodal Analysis stamping and the
//! Newton-style fixed-point iteration around the dense linear solve.
//!
//! The spec functions mirror, stamp for stamp and in netlist order, what the
//! passes compute, so `solve_dc`'s contract pins its result down to the bit:
//! the result equals [`dc_spec`] of the network.

use crate::fp::{
    add_b, add_of, div_b, div_of, exp_b, exp_of, le_b, le_of, mul_b, mul_of, neg_b, neg_of, sub_b,
    sub_of, NEG_ONE_BITS, ONE_BITS, ZERO_BITS,
};
use crate::linalg::{all_finite, ge_elim, ge_result, ge_solution, Vector};
use crate::network::{
    comp_nodes_ok, vsrc_count_from, lemma_vsrc_count_bounds, Component, Network, GND,
};
use crate::sparse::{cell_at, madd, CooMatrix};
use vstd::prelude::*;

verus! {

/// Failure of a DC solve.
#[derive(Debug, PartialEq, Eq, Structural, Clone, Copy)]
pub enum SolveError {
    /// A linear solve failed during the iteration: the circuit is ill-posed.
    InvalidCircuit,
    /// The iteration budget was exhausted without convergence.
    NoConvergence,
}

/// The iteration budget of `solve_dc`.
pub const MAX_ITER: usize = 10000;

/// Bits of the convergence tolerance `1e-5` on the squared difference of
/// two iterates.
pub const TOL_BITS: u64 = 0x3EE4_F8B5_88E3_68F1;

/// Bits of the thermal voltage `2.5852e-2` volts, hard-coded by the diode
/// linearisation.
pub const VT_BITS: u64 = 0x3F9A_78F2_5A25_0F84;

/// The running state of the linear stamping pass: the Jacobian cell map,
/// the right-hand side, and the number of voltage sources seen.
pub ghost struct LinState {
    /// The Jacobian staging cells.
    pub jm: Map<(int, int), u64>,
    /// The right-hand side.
    pub rv: Seq<u64>,
    /// Voltage sources seen so far.
    pub vk: int,
}

/// The running state of the nonlinear stamping pass.
pub ghost struct NlState {
    /// The Jacobian staging cells.
    pub jm: Map<(int, int), u64>,
    /// The right-hand side.
    pub rv: Seq<u64>,
}

/// What the linear pass stamps for one component, at `vk` voltage sources
/// seen and `nn` node rows:
/// a resistor adds its conductance `1/r` at the two diagonal cells and its
/// negation at the two symmetric off-diagonal cells; a current source adds
/// `i` at row `p-1` of the right-hand side and subtracts it at row `n-1`; a
/// voltage source writes the four `±1` pattern at its branch row
/// `m = nn + vk` and sets the right-hand side there to `v`; a diode is
/// skipped. Stamps into ground rows or columns are skipped.
pub open spec fn lin_stamp_comp(c: Component, nn: int, st: LinState) -> LinState {
    match c {
        Component::Resistor { a, b, r } => {
            let g = div_of(ONE_BITS, r);
            let m1 = if a != 0 {
                madd(st.jm, a - 1, a - 1, g)
            } else {
                st.jm
            };
            let m2 = if b != 0 {
                madd(m1, b - 1, b - 1, g)
            } else {
                m1
            };
            let m3 = if a != 0 && b != 0 {
                madd(m2, a - 1, b - 1, neg_of(g))
            } else {
                m2
            };
            let m4 = if a != 0 && b != 0 {
                madd(m3, b - 1, a - 1, neg_of(g))
            } else {
                m3
            };
            LinState { jm: m4, rv: st.rv, vk: st.vk }
        },
        Component::CurrentSource { n, p, i } => {
            let r1 = if p != 0 {
                st.rv.update(p - 1, add_of(st.rv[p - 1], i))
            } else {
                st.rv
            };
            let r2 = if n != 0 {
                r1.update(n - 1, sub_of(r1[n - 1], i))
            } else {
                r1
            };
            LinState { jm: st.jm, rv: r2, vk: st.vk }
        },
        Component::VoltageSource { n, p, v } => {
            let m = nn + st.vk;
            let m1 = if p != 0 {
                madd(st.jm, m, p - 1, ONE_BITS)
            } else {
                st.jm
            };
            let m2 = if p != 0 {
                madd(m1, p - 1, m, ONE_BITS)
            } else {
                m1
            };
            let m3 = if n != 0 {
                madd(m2, m, n - 1, NEG_ONE_BITS)
            } else {
                m2
            };
            let m4 = if n != 0 {
                madd(m3, n - 1, m, NEG_ONE_BITS)
            } else {
                m3
            };
            LinState { jm: m4, rv: st.rv.update(m, v), vk: st.vk + 1 }
        },
        Component::Diode { .. } => st,
    }
}

/// The linear pass over `s[t..]`, in netlist order.
pub open spec fn lin_stamp_from(s: Seq<Component>, t: int, nn: int, st: LinState) -> LinState
    decreases s.len() - t,
{
    if 0 <= t < s.len() {
        lin_stamp_from(s, t + 1, nn, lin_stamp_comp(s[t], nn, st))
    } else {
        st
    }
}

/// What the nonlinear pass stamps for one component at the previous iterate
/// `x`: only a diode acts. Its voltage `vd = V(p) - V(n)` is read off `x`
/// with ground as zero; the current `Id = isat (e^(vd/Vt) - 1)`, the
/// linearised conductance `Id/Vt` and the equivalent current
/// `Id (1 - vd/Vt)` are stamped with the conductance on the diagonal and
/// its negation across, and the equivalent current entering the cathode row
/// and leaving the anode row.
pub open spec fn nl_stamp_comp(c: Component, x: Seq<u64>, st: NlState) -> NlState {
    match c {
        Component::Diode { n, p, isat, .. } => {
            let vd1 = if p != 0 {
                add_of(ZERO_BITS, x[p - 1])
            } else {
                ZERO_BITS
            };
            let vd = if n != 0 {
                sub_of(vd1, x[n - 1])
            } else {
                vd1
            };
            let q = div_of(vd, VT_BITS);
            let cur = mul_of(isat, sub_of(exp_of(q), ONE_BITS));
            let gd = div_of(cur, VT_BITS);
            let ieq = mul_of(cur, sub_of(ONE_BITS, q));
            let m1 = if n != 0 {
                madd(st.jm, n - 1, n - 1, gd)
            } else {
                st.jm
            };
            let r1 = if n != 0 {
                st.rv.update(n - 1, add_of(st.rv[n - 1], ieq))
            } else {
                st.rv
            };
            let m2 = if p != 0 {
                madd(m1, p - 1, p - 1, gd)
            } else {
                m1
            };
            let r2 = if p != 0 {
                r1.update(p - 1, sub_of(r1[p - 1], ieq))
            } else {
                r1
            };
            let m3 = if p != 0 && n != 0 {
                madd(m2, n - 1, p - 1, neg_of(gd))
            } else {
                m2
            };
            let m4 = if p != 0 && n != 0 {
                madd(m3, p - 1, n - 1, neg_of(gd))
            } else {
                m3
            };
            NlState { jm: m4, rv: r2 }
        },
        _ => st,
    }
}

/// The nonlinear pass over `s[t..]`, in netlist order.
pub open spec fn nl_stamp_from(s: Seq<Component>, t: int, x: Seq<u64>, st: NlState) -> NlState
    decreases s.len() - t,
{
    if 0 <= t < s.len() {
        nl_stamp_from(s, t + 1, x, nl_stamp_comp(s[t], x, st))
    } else {
        st
    }
}

/// The dense `n × n` matrix of a cell map: stored cells keep their values,
/// the rest are `+0.0`.
pub open spec fn dense_of(jm: Map<(int, int), u64>, n: int) -> Seq<Seq<u64>> {
    Seq::new(
        n as nat,
        |r: int|
            Seq::new(
                n as nat,
                |c: int|
                    if jm.dom().contains((r, c)) {
                        jm[(r, c)]
                    } else {
                        ZERO_BITS
                    },
            ),
    )
}

/// An all-zero vector of length `n`.
pub open spec fn zero_seq(n: int) -> Seq<u64> {
    Seq::new(n as nat, |i: int| ZERO_BITS)
}

/// The netlist holds no diode, so the nonlinear pass stamps nothing.
pub open spec fn no_diodes(s: Seq<Component>) -> bool {
    forall|t: int| 0 <= t < s.len() ==> !((#[trigger] s[t]) is Diode)
}

/// On a diode-free netlist the nonlinear pass is the identity.
pub proof fn lemma_nl_noop(s: Seq<Component>, t: int, x: Seq<u64>, st: NlState)
    requires
        no_diodes(s),
    ensures
        nl_stamp_from(s, t, x, st) == st,
    decreases s.len() - t,
{
    if 0 <= t < s.len() {
        lemma_nl_noop(s, t + 1, x, st);
    }
}

/// `+0.0` is at most the convergence tolerance.
pub proof fn lemma_le_zero_tol()
    ensures
        le_of(ZERO_BITS, TOL_BITS),
{
    assert(0u64 & 0x7FF0_0000_0000_0000u64 != 0x7FF0_0000_0000_0000u64) by (bit_vector);
    assert(0x3EE4_F8B5_88E3_68F1u64 & 0x7FF0_0000_0000_0000u64
        != 0x7FF0_0000_0000_0000u64) by (bit_vector);
    assert(0x3EE4_F8B5_88E3_68F1u64 & 0x7FFF_FFFF_FFFF_FFFFu64 != 0u64) by (bit_vector);
    assert(0u64 & 0x8000_0000_0000_0000u64 == 0u64) by (bit_vector);
    assert(0x3EE4_F8B5_88E3_68F1u64 & 0x8000_0000_0000_0000u64 == 0u64) by (bit_vector);
}

/// One round of the fixed point at the previous iterate `x_prev`: stamp the
/// nonlinear contributions onto the static system, solve, stop when the
/// squared difference of the iterates is at most the tolerance, otherwise
/// recurse on the new iterate with one unit of budget spent. A failed solve
/// is `InvalidCircuit`; a spent budget is `NoConvergence`.
pub open spec fn dc_fixpoint(
    net: Network,
    jm: Map<(int, int), u64>,
    rv: Seq<u64>,
    x_prev: Seq<u64>,
    fuel: int,
) -> Result<Seq<u64>, SolveError>
    decreases fuel,
{
    let n = net.num_nodes + net.num_vsrc;
    if fuel <= 0 {
        Result::Err(SolveError::NoConvergence)
    } else {
        let st = nl_stamp_from(net.components@, 0, x_prev, NlState { jm, rv });
        match ge_result(dense_of(st.jm, n as int), st.rv) {
            Result::Err(_) => Result::Err(SolveError::InvalidCircuit),
            Result::Ok(x) => if le_of(
                Vector::sq_diff_from(x, x_prev, 0, ZERO_BITS),
                TOL_BITS,
            ) {
                Result::Ok(x)
            } else {
                dc_fixpoint(net, jm, rv, x, fuel - 1)
            },
        }
    }
}

/// The static system of a network: the linear pass run once on an all-zero
/// staging matrix and right-hand side.
pub open spec fn lin_state_of(net: Network) -> LinState {
    lin_stamp_from(
        net.components@,
        0,
        net.num_nodes as int,
        LinState {
            jm: Map::empty(),
            rv: zero_seq(net.num_nodes + net.num_vsrc),
            vk: 0,
        },
    )
}

/// What `solve_dc` returns: an empty solution for an empty system, else the
/// fixed point of [`dc_fixpoint`] started from the static system and the
/// zero iterate, with the full iteration budget.
pub open spec fn dc_spec(net: Network) -> Result<Seq<u64>, SolveError> {
    let n = net.num_nodes + net.num_vsrc;
    if n == 0 {
        Result::Ok(Seq::empty())
    } else {
        let st = lin_state_of(net);
        dc_fixpoint(net, st.jm, st.rv, zero_seq(n as int), MAX_ITER as int)
    }
}


/// The linear pass: stamp every linear component of `net`, in netlist
/// order, into the staging matrix `j` and the right-hand side `rhs`.
pub fn compile_linear(net: &Network, j: &mut CooMatrix, rhs: &mut Vector)
    requires
        net.wf(),
        old(j).wf(),
        old(j).num_row == net.num_nodes + net.num_vsrc,
        old(j).num_col == net.num_nodes + net.num_vsrc,
        old(rhs).vals().len() == net.num_nodes + net.num_vsrc,
    ensures
        final(j).wf(),
        final(j).num_row == old(j).num_row,
        final(j).num_col == old(j).num_col,
        final(rhs).vals().len() == old(rhs).vals().len(),
        ({
            let st = lin_stamp_from(
                net.components@,
                0,
                net.num_nodes as int,
                LinState { jm: old(j).cells(), rv: old(rhs).vals(), vk: 0 },
            );
            final(j).cells() == st.jm && final(rhs).vals() == st.rv
        }),
{
    let nn: usize = net.num_nodes;
    let n: usize = net.num_nodes + net.num_vsrc;
    let ghost comps = net.components@;
    let ghost st0 = LinState { jm: j.cells(), rv: rhs.vals(), vk: 0 };
    let len: usize = net.components.len();
    let mut vsrc_counter: usize = 0;
    let mut t: usize = 0;
    while t < len
        invariant
            net.wf(),
            comps == net.components@,
            len == comps.len(),
            t <= len,
            j.wf(),
            j.num_row == n,
            j.num_col == n,
            rhs.vals().len() == n,
            n == net.num_nodes + net.num_vsrc,
            nn == net.num_nodes,
            vsrc_counter + vsrc_count_from(comps, t as int) == net.num_vsrc,
            st0 == (LinState { jm: old(j).cells(), rv: old(rhs).vals(), vk: 0 }),
            lin_stamp_from(
                comps,
                t as int,
                nn as int,
                LinState { jm: j.cells(), rv: rhs.vals(), vk: vsrc_counter as int },
            ) == lin_stamp_from(comps, 0, nn as int, st0),
        decreases len - t,
    {
        let ghost st_t = LinState { jm: j.cells(), rv: rhs.vals(), vk: vsrc_counter as int };
        proof {
            lemma_vsrc_count_bounds(comps, t as int);
            lemma_vsrc_count_bounds(comps, t + 1);
            assert(comp_nodes_ok(comps[t as int], net.num_nodes as int));
        }
        let c: Component = net.components[t];
        match c {
            Component::Resistor { a, b, r } => {
                let g: u64 = div_b(ONE_BITS, r);
                if a != GND {
                    j.add(a - 1, a - 1, g);
                }
                if b != GND {
                    j.add(b - 1, b - 1, g);
                }
                if a != GND && b != GND {
                    let ng: u64 = neg_b(g);
                    j.add(a - 1, b - 1, ng);
                    let ng2: u64 = neg_b(g);
                    j.add(b - 1, a - 1, ng2);
                }
            },
            Component::CurrentSource { p, n: cn, i } => {
                if p != GND {
                    let cur: u64 = rhs.get(p - 1);
                    rhs.put(p - 1, add_b(cur, i));
                }
                if cn != GND {
                    let cur: u64 = rhs.get(cn - 1);
                    rhs.put(cn - 1, sub_b(cur, i));
                }
            },
            Component::VoltageSource { p, n: cn, v } => {
                let abs_index: usize = nn + vsrc_counter;
                vsrc_counter = vsrc_counter + 1;
                if p != GND {
                    j.add(abs_index, p - 1, ONE_BITS);
                    j.add(p - 1, abs_index, ONE_BITS);
                }
                if cn != GND {
                    j.add(abs_index, cn - 1, NEG_ONE_BITS);
                    j.add(cn - 1, abs_index, NEG_ONE_BITS);
                }
                rhs.put(abs_index, v);
            },
            Component::Diode { .. } => {},
        }
        proof {
            let stc = lin_stamp_comp(comps[t as int], nn as int, st_t);
            assert(comps[t as int] == c);
            assert(LinState { jm: j.cells(), rv: rhs.vals(), vk: vsrc_counter as int } == stc);
            assert(lin_stamp_from(comps, t as int, nn as int, st_t) == lin_stamp_from(
                comps,
                t + 1,
                nn as int,
                stc,
            ));
        }
        t = t + 1;
    }
}

/// The nonlinear pass: stamp the linearisation of every diode around the
/// previous iterate `last_x` onto the working copies `j` and `rhs`.
pub fn compile_nonlinear(net: &Network, j: &mut CooMatrix, rhs: &mut Vector, last_x: &Vector)
    requires
        net.wf(),
        old(j).wf(),
        old(j).num_row == net.num_nodes + net.num_vsrc,
        old(j).num_col == net.num_nodes + net.num_vsrc,
        old(rhs).vals().len() == net.num_nodes + net.num_vsrc,
        last_x.vals().len() == net.num_nodes + net.num_vsrc,
    ensures
        final(j).wf(),
        final(j).num_row == old(j).num_row,
        final(j).num_col == old(j).num_col,
        final(rhs).vals().len() == old(rhs).vals().len(),
        ({
            let st = nl_stamp_from(
                net.components@,
                0,
                last_x.vals(),
                NlState { jm: old(j).cells(), rv: old(rhs).vals() },
            );
            final(j).cells() == st.jm && final(rhs).vals() == st.rv
        }),
{
    let nn: usize = net.num_nodes;
    let n: usize = net.num_nodes + net.num_vsrc;
    let ghost comps = net.components@;
    let ghost xv = last_x.vals();
    let ghost st0 = NlState { jm: j.cells(), rv: rhs.vals() };
    let len: usize = net.components.len();
    let mut t: usize = 0;
    while t < len
        invariant
            net.wf(),
            comps == net.components@,
            len == comps.len(),
            t <= len,
            j.wf(),
            j.num_row == n,
            j.num_col == n,
            rhs.vals().len() == n,
            n == net.num_nodes + net.num_vsrc,
            nn == net.num_nodes,
            xv == last_x.vals(),
            xv.len() == n,
            st0 == (NlState { jm: old(j).cells(), rv: old(rhs).vals() }),
            nl_stamp_from(comps, t as int, xv, NlState { jm: j.cells(), rv: rhs.vals() })
                == nl_stamp_from(comps, 0, xv, st0),
        decreases len - t,
    {
        let ghost st_t = NlState { jm: j.cells(), rv: rhs.vals() };
        proof {
            assert(comp_nodes_ok(comps[t as int], net.num_nodes as int));
        }
        let c: Component = net.components[t];
        match c {
            Component::Diode { n: cn, p, isat, .. } => {
                let mut voltage: u64 = ZERO_BITS;
                if p != GND {
                    voltage = add_b(voltage, last_x.get(p - 1));
                }
                if cn != GND {
                    voltage = sub_b(voltage, last_x.get(cn - 1));
                }
                let q: u64 = div_b(voltage, VT_BITS);
                let cur: u64 = mul_b(isat, sub_b(exp_b(q), ONE_BITS));
                let gd: u64 = div_b(cur, VT_BITS);
                let ieq: u64 = mul_b(cur, sub_b(ONE_BITS, q));
                if cn != GND {
                    j.add(cn - 1, cn - 1, gd);
                    let cval: u64 = rhs.get(cn - 1);
                    rhs.put(cn - 1, add_b(cval, ieq));
                }
                if p != GND {
                    j.add(p - 1, p - 1, gd);
                    let cval: u64 = rhs.get(p - 1);
                    rhs.put(p - 1, sub_b(cval, ieq));
                }
                if p != GND && cn != GND {
                    let ngd: u64 = neg_b(gd);
                    j.add(cn - 1, p - 1, ngd);
                    let ngd2: u64 = neg_b(gd);
                    j.add(p - 1, cn - 1, ngd2);
                }
            },
            _ => {},
        }
        proof {
            let stc = nl_stamp_comp(comps[t as int], xv, st_t);
            assert(comps[t as int] == c);
            assert(NlState { jm: j.cells(), rv: rhs.vals() } == stc);
            assert(nl_stamp_from(comps, t as int, xv, st_t) == nl_stamp_from(
                comps,
                t + 1,
                xv,
                stc,
            ));
        }
        t = t + 1;
    }
}


/// The hypotheses under which a solve is owed: the network has no diodes,
/// elimination of its static system finds no zero pivot, and the resulting
/// solution is finite.
pub open spec fn linear_solvable(net: Network) -> bool {
    let n = net.num_nodes + net.num_vsrc;
    let st = lin_state_of(net);
    &&& no_diodes(net.components@)
    &&& ge_elim(dense_of(st.jm, n as int), st.rv) is Some
    &&& all_finite(ge_solution(dense_of(st.jm, n as int), st.rv))
}

/// The DC operating point of `net`: run the linear pass once, then iterate
/// — stamp the diode linearisations at the previous iterate onto a working
/// copy, solve the dense system, and stop as soon as the squared difference
/// of two consecutive iterates is at most the tolerance. The result is
/// exactly [`dc_spec`] of the network; on a diode-free network whose static
/// system is regular with a finite solution, it is that solution, reached
/// as soon as the convergence test allows.
pub fn solve_dc(net: &Network) -> (res: Result<Vector, SolveError>)
    requires
        net.wf(),
    ensures
        res is Ok ==> dc_spec(*net) == Result::<Seq<u64>, SolveError>::Ok(res->Ok_0.vals()),
        res is Ok ==> res->Ok_0.vals().len() == net.num_nodes + net.num_vsrc,
        res is Err ==> dc_spec(*net) == Result::<Seq<u64>, SolveError>::Err(res->Err_0),
        ({
            let n = net.num_nodes + net.num_vsrc;
            let st = lin_state_of(*net);
            linear_solvable(*net) && n > 0 ==> res is Ok && res->Ok_0.vals() == ge_solution(
                dense_of(st.jm, n as int),
                st.rv,
            )
        }),
{
    let n: usize = net.num_nodes + net.num_vsrc;
    if n == 0 {
        let empty = Vector::zeros(0);
        proof {
            assert(empty.vals() =~= Seq::<u64>::empty());
        }
        return Result::Ok(empty);
    }
    proof {
        assert(n < usize::MAX) by (nonlinear_arith)
            requires
                n >= 1,
                n * (n + 1) <= usize::MAX,
        ;
        assert(n * n <= n * (n + 1)) by (nonlinear_arith)
            requires
                n >= 0,
        ;
    }
    let mut j = CooMatrix::new(n, n);
    let mut rhs = Vector::zeros(n);
    proof {
        assert(rhs.vals() =~= zero_seq(n as int));
        assert(j.cells() =~= Map::<(int, int), u64>::empty());
    }
    compile_linear(net, &mut j, &mut rhs);
    let ghost stl = lin_state_of(*net);
    proof {
        assert(j.cells() == stl.jm && rhs.vals() == stl.rv);
    }
    let ghost sol = ge_solution(dense_of(stl.jm, n as int), stl.rv);
    let ghost hyp = linear_solvable(*net);

    let mut last_x = Vector::zeros(n);
    proof {
        assert(last_x.vals() =~= zero_seq(n as int));
    }
    let mut iter: usize = 0;
    while iter < MAX_ITER
        invariant
            net.wf(),
            n == net.num_nodes + net.num_vsrc,
            n >= 1,
            n < usize::MAX,
            n * (n + 1) <= usize::MAX,
            j.wf(),
            j.num_row == n,
            j.num_col == n,
            rhs.vals().len() == n,
            stl == lin_state_of(*net),
            j.cells() == stl.jm,
            rhs.vals() == stl.rv,
            last_x.vals().len() == n,
            iter <= MAX_ITER,
            dc_fixpoint(*net, stl.jm, stl.rv, last_x.vals(), MAX_ITER - iter) == dc_fixpoint(
                *net,
                stl.jm,
                stl.rv,
                zero_seq(n as int),
                MAX_ITER as int,
            ),
            hyp == linear_solvable(*net),
            sol == ge_solution(dense_of(stl.jm, n as int), stl.rv),
            hyp ==> iter <= 1 && (iter == 1 ==> last_x.vals() == sol),
        decreases MAX_ITER - iter,
    {
        let mut jw = j.duplicate();
        let mut rw = rhs.duplicate();
        compile_nonlinear(net, &mut jw, &mut rw, &last_x);
        let ghost stn = nl_stamp_from(
            net.components@,
            0,
            last_x.vals(),
            NlState { jm: stl.jm, rv: stl.rv },
        );
        proof {
            assert(jw.cells() == stn.jm && rw.vals() == stn.rv);
            if hyp {
                lemma_nl_noop(
                    net.components@,
                    0,
                    last_x.vals(),
                    NlState { jm: stl.jm, rv: stl.rv },
                );
            }
        }
        proof {
            assert(n * n <= n * (n + 1)) by (nonlinear_arith)
                requires
                    n >= 0,
            ;
        }
        let dense = jw.to_dense();
        proof {
            assert forall|r: int| 0 <= r < n implies dense.rows()[r] == dense_of(
                stn.jm,
                n as int,
            )[r] by {
                assert forall|c: int| 0 <= c < n implies dense.rows()[r][c] == dense_of(
                    stn.jm,
                    n as int,
                )[r][c] by {}
                assert(dense.rows()[r] =~= dense_of(stn.jm, n as int)[r]);
            }
            assert(dense.rows() =~= dense_of(stn.jm, n as int));
        }
        let ghost densev = dense.rows();
        let ghost rwv = rw.vals();
        let ghost fuel = MAX_ITER - iter;
        match crate::linalg::solve(dense, rw) {
            Result::Err(_) => {
                proof {
                    assert(ge_elim(densev, rwv) is None);
                    assert(ge_result(densev, rwv) is Err);
                    assert(dc_fixpoint(*net, stl.jm, stl.rv, last_x.vals(), fuel)
                        == Result::<Seq<u64>, SolveError>::Err(SolveError::InvalidCircuit));
                    if hyp {
                        assert(stn.jm == stl.jm && stn.rv == stl.rv);
                        assert(false);
                    }
                }
                return Result::Err(SolveError::InvalidCircuit);
            },
            Result::Ok(x) => {
                proof {
                    assert(ge_elim(densev, rwv) is Some);
                    assert(x.vals() == ge_solution(densev, rwv));
                }
                let d: u64 = x.squared_diff(&last_x);
                if le_b(d, TOL_BITS) {
                    proof {
                        assert(dc_fixpoint(*net, stl.jm, stl.rv, last_x.vals(), fuel)
                            == Result::<Seq<u64>, SolveError>::Ok(x.vals()));
                        if hyp {
                            assert(x.vals() == sol);
                        }
                    }
                    return Result::Ok(x);
                }
                proof {
                    assert(dc_fixpoint(*net, stl.jm, stl.rv, last_x.vals(), fuel) == dc_fixpoint(
                        *net,
                        stl.jm,
                        stl.rv,
                        x.vals(),
                        fuel - 1,
                    ));
                    if hyp {
                        assert(x.vals() == sol);
                        if iter == 1 {
                            assert(last_x.vals() == sol);
                            assert(all_finite(x.vals()));
                            assert(d == ZERO_BITS);
                            lemma_le_zero_tol();
                            assert(false);
                        }
                    }
                }
                last_x = x;
            },
        }
        iter = iter + 1;
    }
    proof {
        assert(dc_fixpoint(*net, stl.jm, stl.rv, last_x.vals(), 0) == Result::<
            Seq<u64>,
            SolveError,
        >::Err(SolveError::NoConvergence));
        if hyp {
            assert(false);
        }
    }
    Result::Err(SolveError::NoConvergence)
}


/// The cell map is symmetric: whatever is stored at `(r, c)` is stored at
/// `(c, r)` too.
pub open spec fn sym_cells(m: Map<(int, int), u64>) -> bool {
    forall|r: int, c: int| #[trigger]
        m.dom().contains((r, c)) ==> m.dom().contains((c, r)) && m[(c, r)] == m[(r, c)]
}

/// A single accumulation on the diagonal keeps the map symmetric.
proof fn lemma_madd_diag_sym(m: Map<(int, int), u64>, d: int, v: u64)
    requires
        sym_cells(m),
    ensures
        sym_cells(madd(m, d, d, v)),
{
}

/// Accumulating the same value at `(r, c)` and then `(c, r)` keeps the map
/// symmetric.
proof fn lemma_madd_pair_sym(m: Map<(int, int), u64>, r: int, c: int, v: u64)
    requires
        sym_cells(m),
    ensures
        sym_cells(madd(madd(m, r, c, v), c, r, v)),
{
    let m1 = madd(m, r, c, v);
    let m2 = madd(m1, c, r, v);
    assert forall|x: int, y: int| #[trigger] m2.dom().contains((x, y)) implies m2.dom().contains(
        (y, x),
    ) && m2[(y, x)] == m2[(x, y)] by {
        if r == c {
        } else if (x, y) == (r, c) || (x, y) == (c, r) {
        } else {
        }
    }
}

/// Every stamp of the linear pass is symmetric — a resistor stamps its
/// conductance pairwise, a voltage source its `±1` pattern pairwise, a
/// current source touches only the right-hand side — so the whole pass,
/// started from a symmetric staging matrix (the empty one included),
/// leaves a symmetric Jacobian. In particular the node–node block stays
/// symmetric after resistor stamps.
pub proof fn lemma_linear_pass_symmetric(s: Seq<Component>, t: int, nn: int, st: LinState)
    requires
        sym_cells(st.jm),
    ensures
        sym_cells(lin_stamp_from(s, t, nn, st).jm),
    decreases s.len() - t,
{
    if 0 <= t < s.len() {
        let st1 = lin_stamp_comp(s[t], nn, st);
        match s[t] {
            Component::Resistor { a, b, r } => {
                let g = div_of(ONE_BITS, r);
                let m1 = if a != 0 {
                    madd(st.jm, a - 1, a - 1, g)
                } else {
                    st.jm
                };
                let m2 = if b != 0 {
                    madd(m1, b - 1, b - 1, g)
                } else {
                    m1
                };
                if a != 0 {
                    lemma_madd_diag_sym(st.jm, a - 1, g);
                }
                if b != 0 {
                    lemma_madd_diag_sym(m1, b - 1, g);
                }
                if a != 0 && b != 0 {
                    lemma_madd_pair_sym(m2, a - 1, b - 1, neg_of(g));
                }
                assert(sym_cells(st1.jm));
            },
            Component::VoltageSource { n, p, v } => {
                let m = nn + st.vk;
                let m2 = if p != 0 {
                    madd(madd(st.jm, m, p - 1, ONE_BITS), p - 1, m, ONE_BITS)
                } else {
                    st.jm
                };
                if p != 0 {
                    lemma_madd_pair_sym(st.jm, m, p - 1, ONE_BITS);
                }
                if n != 0 {
                    lemma_madd_pair_sym(m2, m, n - 1, NEG_ONE_BITS);
                }
                assert(sym_cells(st1.jm));
            },
            _ => {
                assert(sym_cells(st1.jm));
            },
        }
        lemma_linear_pass_symmetric(s, t + 1, nn, st1);
    }
}

/// On a diode-free network, any iterate the fixed point accepts is the
/// solution of the static linear system: every round solves the same
/// system, so a successful result can only be its Gaussian-elimination
/// solution.
pub proof fn lemma_linear_fixpoint(
    net: Network,
    jm: Map<(int, int), u64>,
    rv: Seq<u64>,
    x_prev: Seq<u64>,
    fuel: int,
    x: Seq<u64>,
)
    requires
        no_diodes(net.components@),
        dc_fixpoint(net, jm, rv, x_prev, fuel) == Result::<Seq<u64>, SolveError>::Ok(x),
    ensures
        x == ge_solution(dense_of(jm, (net.num_nodes + net.num_vsrc) as int), rv),
    decreases
            (if fuel >= 0 {
                fuel
            } else {
                0
            }),
{
    lemma_nl_noop(net.components@, 0, x_prev, NlState { jm, rv });
    let n = net.num_nodes + net.num_vsrc;
    match ge_result(dense_of(jm, n as int), rv) {
        Result::Err(_) => {
            assert(false);
        },
        Result::Ok(x1) => {
            if le_of(Vector::sq_diff_from(x1, x_prev, 0, ZERO_BITS), TOL_BITS) {
            } else {
                lemma_linear_fixpoint(net, jm, rv, x1, fuel - 1, x);
            }
        },
    }
}


/// The linear pass treats the two orientations of one current source the
/// same once the current is negated: the stamps at the two terminal rows
/// are the same rounded operations, in the other order, on distinct cells.
proof fn lemma_lin_swap_run(
    s1: Seq<Component>,
    s2: Seq<Component>,
    t: int,
    u: int,
    cn: usize,
    p: usize,
    i: u64,
    nn: int,
    st: LinState,
)
    requires
        s1.len() == s2.len(),
        0 <= t < s1.len(),
        forall|q: int| 0 <= q < s1.len() && q != t ==> s1[q] == s2[q],
        s1[t] == (Component::CurrentSource { n: cn, p, i }),
        s2[t] == (Component::CurrentSource { n: p, p: cn, i: neg_of(i) }),
        p != cn || p == 0,
        0 <= u,
        0 <= nn,
        0 <= st.vk,
        p <= nn,
        cn <= nn,
        forall|q: int| u <= q < s1.len() ==> comp_nodes_ok(#[trigger] s1[q], nn),
        st.rv.len() >= nn + st.vk + vsrc_count_from(s1, u),
    ensures
        lin_stamp_from(s1, u, nn, st) == lin_stamp_from(s2, u, nn, st),
        lin_stamp_from(s1, u, nn, st).rv.len() == st.rv.len(),
    decreases s1.len() - u,
{
    lemma_vsrc_count_bounds(s1, u);
    lemma_vsrc_count_bounds(s1, u + 1);
    if u < s1.len() {
        assert(comp_nodes_ok(s1[u], nn));
        let st1 = lin_stamp_comp(s1[u], nn, st);
        assert(st1.rv.len() == st.rv.len() && st1.vk >= st.vk && st.rv.len() >= nn + st1.vk
            + vsrc_count_from(s1, u + 1)) by {
            match s1[u] {
                Component::VoltageSource { n, p, v } => {
                    assert(vsrc_count_from(s1, u) == 1 + vsrc_count_from(s1, u + 1));
                },
                _ => {},
            }
        }
        if u != t {
            lemma_lin_swap_run(s1, s2, t, u + 1, cn, p, i, nn, st1);
        } else {
            let st2 = lin_stamp_comp(s2[t], nn, st);
            crate::fp::lemma_neg_involutive(i);
            assert(st1.rv.len() == st.rv.len() && st2.rv.len() == st.rv.len());
            assert forall|q: int| 0 <= q < st.rv.len() implies st1.rv[q] == st2.rv[q] by {
                if p != 0 && q == p - 1 {
                    assert(st1.rv[q] == add_of(st.rv[p - 1], i));
                    assert(st2.rv[q] == add_of(st.rv[p - 1], neg_of(neg_of(i))));
                } else if cn != 0 && q == cn - 1 {
                    assert(st1.rv[q] == add_of(st.rv[cn - 1], neg_of(i)));
                    assert(st2.rv[q] == add_of(st.rv[cn - 1], neg_of(i)));
                }
            }
            assert(st1.rv =~= st2.rv);
            assert(st1 == st2);
            lemma_lin_swap_run(s1, s2, t, u + 1, cn, p, i, nn, st1);
        }
    }
}

/// The nonlinear pass does not read current sources at all, so it agrees on
/// the two networks.
proof fn lemma_nl_swap_run(
    s1: Seq<Component>,
    s2: Seq<Component>,
    t: int,
    u: int,
    x: Seq<u64>,
    st: NlState,
)
    requires
        s1.len() == s2.len(),
        0 <= t < s1.len(),
        forall|q: int| 0 <= q < s1.len() && q != t ==> s1[q] == s2[q],
        s1[t] is CurrentSource,
        s2[t] is CurrentSource,
        0 <= u,
    ensures
        nl_stamp_from(s1, u, x, st) == nl_stamp_from(s2, u, x, st),
    decreases s1.len() - u,
{
    if u < s1.len() {
        lemma_nl_swap_run(s1, s2, t, u + 1, x, nl_stamp_comp(s1[u], x, st));
    }
}

/// The fixed points of the two networks agree round for round.
proof fn lemma_dc_swap(
    net1: Network,
    net2: Network,
    t: int,
    jm: Map<(int, int), u64>,
    rv: Seq<u64>,
    x_prev: Seq<u64>,
    fuel: int,
)
    requires
        net1.num_nodes == net2.num_nodes,
        net1.num_vsrc == net2.num_vsrc,
        net1.components@.len() == net2.components@.len(),
        0 <= t < net1.components@.len(),
        forall|q: int|
            0 <= q < net1.components@.len() && q != t ==> net1.components@[q]
                == net2.components@[q],
        net1.components@[t] is CurrentSource,
        net2.components@[t] is CurrentSource,
    ensures
        dc_fixpoint(net1, jm, rv, x_prev, fuel) == dc_fixpoint(net2, jm, rv, x_prev, fuel),
    decreases
            (if fuel >= 0 {
                fuel
            } else {
                0
            }),
{
    if fuel > 0 {
        lemma_nl_swap_run(net1.components@, net2.components@, t, 0, x_prev, NlState { jm, rv });
        let n = net1.num_nodes + net1.num_vsrc;
        let st = nl_stamp_from(net1.components@, 0, x_prev, NlState { jm, rv });
        match ge_result(dense_of(st.jm, n as int), st.rv) {
            Result::Err(_) => {},
            Result::Ok(x) => {
                if !le_of(Vector::sq_diff_from(x, x_prev, 0, ZERO_BITS), TOL_BITS) {
                    lemma_dc_swap(net1, net2, t, jm, rv, x, fuel - 1);
                }
            },
        }
    }
}

/// Swapping the `p` and `n` labels of one current source and negating its
/// current leaves the DC solution unchanged. The one orientation not
/// covered is a source with both terminals on the same non-ground node,
/// where the two stamp orders round differently.
pub proof fn lemma_current_source_reversal(
    net1: Network,
    net2: Network,
    t: int,
    cn: usize,
    p: usize,
    i: u64,
)
    requires
        net1.wf(),
        net1.num_nodes == net2.num_nodes,
        net1.num_vsrc == net2.num_vsrc,
        net1.components@.len() == net2.components@.len(),
        0 <= t < net1.components@.len(),
        forall|q: int|
            0 <= q < net1.components@.len() && q != t ==> net1.components@[q]
                == net2.components@[q],
        net1.components@[t] == (Component::CurrentSource { n: cn, p, i }),
        net2.components@[t] == (Component::CurrentSource { n: p, p: cn, i: neg_of(i) }),
        p != cn || p == 0,
    ensures
        dc_spec(net1) == dc_spec(net2),
{
    let n = net1.num_nodes + net1.num_vsrc;
    if n != 0 {
        assert(comp_nodes_ok(net1.components@[t], net1.num_nodes as int));
        assert(zero_seq(n as int).len() == n);
        lemma_lin_swap_run(
            net1.components@,
            net2.components@,
            t,
            0,
            cn,
            p,
            i,
            net1.num_nodes as int,
            LinState { jm: Map::empty(), rv: zero_seq(n as int), vk: 0 },
        );
        let st = lin_state_of(net1);
        assert(lin_state_of(net2) == st);
        lemma_dc_swap(net1, net2, t, st.jm, st.rv, zero_seq(n as int), MAX_ITER as int);
    }
}


/// From a state whose voltage-source counter has moved past the branch row
/// `m`, the rest of the linear pass never writes row `m` again: node stamps
/// stay below the node rows, later branch rows lie strictly above `m`.
proof fn lemma_lin_row_preserved(s: Seq<Component>, u: int, nn: int, st: LinState, m: int)
    requires
        0 <= u,
        0 <= nn,
        0 <= st.vk,
        nn <= m < nn + st.vk,
        forall|q: int| u <= q < s.len() ==> comp_nodes_ok(#[trigger] s[q], nn),
        st.rv.len() >= nn + st.vk + vsrc_count_from(s, u),
    ensures
        forall|c: int| #[trigger] cell_at(lin_stamp_from(s, u, nn, st).jm, m, c) == cell_at(
            st.jm,
            m,
            c,
        ),
        lin_stamp_from(s, u, nn, st).rv[m] == st.rv[m],
        lin_stamp_from(s, u, nn, st).rv.len() == st.rv.len(),
    decreases s.len() - u,
{
    lemma_vsrc_count_bounds(s, u);
    lemma_vsrc_count_bounds(s, u + 1);
    if u < s.len() {
        assert(comp_nodes_ok(s[u], nn));
        let st1 = lin_stamp_comp(s[u], nn, st);
        assert(st1.rv.len() == st.rv.len() && st1.vk >= st.vk && st.rv.len() >= nn + st1.vk
            + vsrc_count_from(s, u + 1)) by {
            match s[u] {
                Component::VoltageSource { n, p, v } => {
                    assert(vsrc_count_from(s, u) == 1 + vsrc_count_from(s, u + 1));
                },
                _ => {},
            }
        }
        assert forall|c: int| cell_at(st1.jm, m, c) == cell_at(st.jm, m, c) by {}
        assert(st1.rv[m] == st.rv[m]);
        lemma_lin_row_preserved(s, u + 1, nn, st1, m);
        let fin = lin_stamp_from(s, u, nn, st);
        assert(fin == lin_stamp_from(s, u + 1, nn, st1));
        assert forall|c: int| #[trigger] cell_at(fin.jm, m, c) == cell_at(st.jm, m, c) by {
            assert(cell_at(lin_stamp_from(s, u + 1, nn, st1).jm, m, c) == cell_at(st1.jm, m, c));
        }
    }
}

/// Running the linear pass up to and past the voltage source at `t` leaves
/// its branch row `m` with exactly the two `±1.0` cells and its `v` on the
/// right-hand side, provided row `m` started empty.
proof fn lemma_vsrc_row_run(
    s: Seq<Component>,
    u: int,
    t: int,
    nn: int,
    st: LinState,
    m: int,
    cn: usize,
    p: usize,
    v: u64,
)
    requires
        0 <= u <= t < s.len(),
        s[t] == (Component::VoltageSource { n: cn, p, v }),
        p != 0,
        cn != 0,
        p != cn,
        p <= nn,
        cn <= nn,
        0 <= nn,
        0 <= st.vk,
        forall|q: int| u <= q < s.len() ==> comp_nodes_ok(#[trigger] s[q], nn),
        st.rv.len() >= nn + st.vk + vsrc_count_from(s, u),
        m == nn + st.vk + vsrc_count_from(s, u) - vsrc_count_from(s, t),
        forall|c: int| #[trigger] cell_at(st.jm, m, c) == Option::<u64>::None,
    ensures
        cell_at(lin_stamp_from(s, u, nn, st).jm, m, p - 1) == Option::Some(ONE_BITS),
        cell_at(lin_stamp_from(s, u, nn, st).jm, m, cn - 1) == Option::Some(NEG_ONE_BITS),
        forall|c: int|
            c != p - 1 && c != cn - 1 ==> #[trigger] cell_at(
                lin_stamp_from(s, u, nn, st).jm,
                m,
                c,
            ) == Option::<u64>::None,
        lin_stamp_from(s, u, nn, st).rv[m] == v,
    decreases s.len() - u,
{
    lemma_vsrc_count_bounds(s, u);
    lemma_vsrc_count_bounds(s, u + 1);
    lemma_vsrc_count_bounds(s, t);
    lemma_vsrc_count_bounds(s, t + 1);
    assert(comp_nodes_ok(s[u], nn));
    let st1 = lin_stamp_comp(s[u], nn, st);
    assert(st1.rv.len() == st.rv.len() && st1.vk >= st.vk && st.rv.len() >= nn + st1.vk
        + vsrc_count_from(s, u + 1)) by {
        match s[u] {
            Component::VoltageSource { n: n2, p: p2, v: v2 } => {
                assert(vsrc_count_from(s, u) == 1 + vsrc_count_from(s, u + 1));
            },
            _ => {},
        }
    }
    let fin = lin_stamp_from(s, u, nn, st);
    assert(fin == lin_stamp_from(s, u + 1, nn, st1));
    if u < t {
        lemma_vsrc_count_prefix(s, u, t);
        lemma_vsrc_count_prefix(s, u + 1, t);
        assert forall|c: int| #[trigger] cell_at(st1.jm, m, c) == Option::<u64>::None by {
            assert(cell_at(st.jm, m, c) == Option::<u64>::None);
        }
        assert(m == nn + st1.vk + vsrc_count_from(s, u + 1) - vsrc_count_from(s, t));
        lemma_vsrc_row_run(s, u + 1, t, nn, st1, m, cn, p, v);
    } else {
        assert(vsrc_count_from(s, t) == 1 + vsrc_count_from(s, t + 1));
        assert(m == nn + st.vk);
        assert(cell_at(st.jm, m, p - 1) == Option::<u64>::None);
        assert(cell_at(st.jm, m, cn - 1) == Option::<u64>::None);
        assert(cell_at(st1.jm, m, p - 1) == Option::Some(ONE_BITS));
        assert(cell_at(st1.jm, m, cn - 1) == Option::Some(NEG_ONE_BITS));
        assert forall|c: int|
            c != p - 1 && c != cn - 1 implies #[trigger] cell_at(st1.jm, m, c) == Option::<
            u64,
        >::None by {
            assert(cell_at(st.jm, m, c) == Option::<u64>::None);
        }
        assert(st1.rv[m] == v);
        lemma_lin_row_preserved(s, u + 1, nn, st1, m);
        assert(cell_at(fin.jm, m, p - 1) == cell_at(st1.jm, m, p - 1));
        assert(cell_at(fin.jm, m, cn - 1) == cell_at(st1.jm, m, cn - 1));
        assert forall|c: int|
            c != p - 1 && c != cn - 1 implies #[trigger] cell_at(fin.jm, m, c) == Option::<
            u64,
        >::None by {
            assert(cell_at(lin_stamp_from(s, u + 1, nn, st1).jm, m, c) == cell_at(st1.jm, m, c));
        }
        assert(fin.rv[m] == v);
    }
}

/// Counting from earlier in the list counts at least as many voltage
/// sources.
proof fn lemma_vsrc_count_prefix(s: Seq<Component>, u: int, t: int)
    requires
        0 <= u <= t,
    ensures
        vsrc_count_from(s, u) >= vsrc_count_from(s, t),
    decreases t - u,
{
    lemma_vsrc_count_bounds(s, u);
    lemma_vsrc_count_bounds(s, t);
    if u < t {
        lemma_vsrc_count_prefix(s, u + 1, t);
    }
}

/// After the linear pass from the empty staging matrix, the branch row of
/// a voltage source with two distinct non-ground terminals holds exactly
/// two cells — `+1.0` in the column of its `p` terminal and `-1.0` in the
/// column of its `n` terminal — and the right-hand side there is exactly
/// its `v`.
pub proof fn lemma_vsrc_row(net: Network, t: int, cn: usize, p: usize, v: u64)
    requires
        net.wf(),
        0 <= t < net.components@.len(),
        net.components@[t] == (Component::VoltageSource { n: cn, p, v }),
        p != 0,
        cn != 0,
        p != cn,
    ensures
        ({
            let st = lin_state_of(net);
            let m = net.num_nodes + net.num_vsrc - vsrc_count_from(net.components@, t);
            &&& cell_at(st.jm, m, p - 1) == Option::Some(ONE_BITS)
            &&& cell_at(st.jm, m, cn - 1) == Option::Some(NEG_ONE_BITS)
            &&& forall|c: int|
                c != p - 1 && c != cn - 1 ==> #[trigger] cell_at(st.jm, m, c) == Option::<
                u64,
            >::None
            &&& st.rv[m] == v
        }),
{
    let n = net.num_nodes + net.num_vsrc;
    let m = net.num_nodes + net.num_vsrc - vsrc_count_from(net.components@, t);
    assert(comp_nodes_ok(net.components@[t], net.num_nodes as int));
    assert(zero_seq(n as int).len() == n);
    let st0 = LinState { jm: Map::empty(), rv: zero_seq(n as int), vk: 0 };
    assert(forall|c: int| #[trigger] cell_at(st0.jm, m, c) == Option::<u64>::None);
    lemma_vsrc_row_run(net.components@, 0, t, net.num_nodes as int, st0, m, cn, p, v);
}

} // verus!
