//! End-to-end DC solves on small netlists.

use pixie::linalg::Vector;
use pixie::network::{Component, Network, NetworkBuilder};
use pixie::solver::{compile_linear, solve_dc, SolveError};
use pixie::sparse::CooMatrix;

fn bits(x: f64) -> u64 {
    x.to_bits()
}

fn val(x: u64) -> f64 {
    f64::from_bits(x)
}

fn build(components: Vec<Component>) -> Network {
    let mut b = NetworkBuilder::new();
    for c in components {
        b = b.add_component(c);
    }
    let net = b.build();
    assert!(net.check_well_formed());
    net
}

#[test]
fn voltage_divider() {
    // V 0 1 10, R 1 2 1000, R 2 0 1000
    let net = build(vec![
        Component::VoltageSource { n: 0, p: 1, v: bits(10.0) },
        Component::Resistor { a: 1, b: 2, r: bits(1000.0) },
        Component::Resistor { a: 2, b: 0, r: bits(1000.0) },
    ]);
    let x = solve_dc(&net).expect("divider must solve");
    assert_eq!(x.len(), 3);
    assert!((val(x.get(0)) - 10.0).abs() < 1e-9);
    assert!((val(x.get(1)) - 5.0).abs() < 1e-9);
    assert!((val(x.get(2)) - (-0.005)).abs() < 1e-12);
}

#[test]
fn norton_source() {
    // I 0 1 1, R 1 0 50
    let net = build(vec![
        Component::CurrentSource { n: 0, p: 1, i: bits(1.0) },
        Component::Resistor { a: 1, b: 0, r: bits(50.0) },
    ]);
    let x = solve_dc(&net).expect("norton source must solve");
    assert_eq!(x.len(), 1);
    assert!((val(x.get(0)) - 50.0).abs() < 1e-9);
}

#[test]
fn series_resistors_with_current_source() {
    // I 0 1 2, R 1 2 3, R 2 0 7
    let net = build(vec![
        Component::CurrentSource { n: 0, p: 1, i: bits(2.0) },
        Component::Resistor { a: 1, b: 2, r: bits(3.0) },
        Component::Resistor { a: 2, b: 0, r: bits(7.0) },
    ]);
    let x = solve_dc(&net).expect("series circuit must solve");
    assert_eq!(x.len(), 2);
    assert!((val(x.get(0)) - 20.0).abs() < 1e-9);
    assert!((val(x.get(1)) - 14.0).abs() < 1e-9);
}

#[test]
fn diode_clamped_supply() {
    // V 0 1 10, D 1 2 1e-12 300, R 2 0 100; anode is the first diode node
    let net = build(vec![
        Component::VoltageSource { n: 0, p: 1, v: bits(10.0) },
        Component::Diode { n: 2, p: 1, isat: bits(1e-12), t: bits(300.0) },
        Component::Resistor { a: 2, b: 0, r: bits(100.0) },
    ]);
    let x = solve_dc(&net).expect("diode clamp must converge");
    assert_eq!(x.len(), 3);
    assert!((val(x.get(0)) - 10.0).abs() < 1e-9);
    // V2 about 9.4 V, tolerance 5 percent
    let v2 = val(x.get(1));
    assert!(v2 > 9.4 * 0.95 && v2 < 9.4 * 1.05, "V2 = {v2}");
    // supply current about -94 mA, tolerance 5 percent
    let iv = val(x.get(2));
    assert!(iv < -0.094 * 0.95 && iv > -0.094 * 1.05, "I(V) = {iv}");
}

#[test]
fn singular_network() {
    // V 0 1 5, V 0 1 3: two sources enforcing different voltages
    let net = build(vec![
        Component::VoltageSource { n: 0, p: 1, v: bits(5.0) },
        Component::VoltageSource { n: 0, p: 1, v: bits(3.0) },
    ]);
    let e = solve_dc(&net).expect_err("conflicting sources are singular");
    assert_eq!(e, SolveError::InvalidCircuit);
}

#[test]
fn reverse_saturated_diode_does_not_hang() {
    // A 30 V supply across a diode drives the linearisation into overflow:
    // the iteration must stop with NoConvergence, not hang.
    let net = build(vec![
        Component::VoltageSource { n: 0, p: 1, v: bits(30.0) },
        Component::Diode { n: 2, p: 1, isat: bits(1e-12), t: bits(300.0) },
        Component::Resistor { a: 2, b: 0, r: bits(1.0) },
    ]);
    let e = solve_dc(&net).expect_err("oscillating linearisation must give up");
    assert_eq!(e, SolveError::NoConvergence);
}

#[test]
fn empty_network_solves_to_empty() {
    let net = NetworkBuilder::new().build();
    assert!(net.check_well_formed());
    let x = solve_dc(&net).expect("empty network solves trivially");
    assert_eq!(x.len(), 0);
}

#[test]
fn current_source_reversal_is_invisible() {
    // Swapping p and n of a current source and negating i leaves the
    // solution bit-identical.
    let net1 = build(vec![
        Component::CurrentSource { n: 0, p: 1, i: bits(1.0) },
        Component::Resistor { a: 1, b: 0, r: bits(50.0) },
    ]);
    let net2 = build(vec![
        Component::CurrentSource { n: 1, p: 0, i: bits(-1.0) },
        Component::Resistor { a: 1, b: 0, r: bits(50.0) },
    ]);
    let x1 = solve_dc(&net1).expect("must solve");
    let x2 = solve_dc(&net2).expect("must solve");
    assert_eq!(x1.len(), x2.len());
    for k in 0..x1.len() {
        assert_eq!(x1.get(k), x2.get(k));
    }
}

#[test]
fn builder_counts_nodes_and_sources() {
    let b = NetworkBuilder::new()
        .add_component(Component::VoltageSource { n: 0, p: 1, v: bits(1.0) })
        .add_component(Component::Resistor { a: 1, b: 2, r: bits(10.0) })
        .add_component(Component::Resistor { a: 2, b: 1, r: bits(10.0) })
        .add_component(Component::VoltageSource { n: 2, p: 0, v: bits(2.0) });
    let net = b.build();
    assert_eq!(net.num_nodes, 2);
    assert_eq!(net.num_vsrc, 2);
    assert!(net.check_well_formed());
}

#[test]
fn skipped_node_ids_are_rejected() {
    // Ids 1 and 3: two distinct non-ground nodes, but 3 has no row, so the
    // network is not well formed for the stamper's row mapping.
    let b = NetworkBuilder::new()
        .add_component(Component::Resistor { a: 1, b: 3, r: bits(10.0) });
    let net = b.build();
    assert_eq!(net.num_nodes, 2);
    assert!(!net.check_well_formed());
}

#[test]
fn linear_stamp_is_symmetric() {
    // Resistors and a voltage source between assorted nodes.
    let net = build(vec![
        Component::Resistor { a: 1, b: 2, r: bits(100.0) },
        Component::Resistor { a: 2, b: 0, r: bits(50.0) },
        Component::Resistor { a: 1, b: 2, r: bits(25.0) },
        Component::VoltageSource { n: 1, p: 2, v: bits(5.0) },
        Component::CurrentSource { n: 0, p: 1, i: bits(0.5) },
    ]);
    let n = net.num_nodes + net.num_vsrc;
    let mut j = CooMatrix::new(n, n);
    let mut rhs = Vector::zeros(n);
    compile_linear(&net, &mut j, &mut rhs);
    let d = j.to_dense();
    for r in 0..n {
        for c in 0..n {
            assert_eq!(d.get(r, c), d.get(c, r), "cell ({r}, {c})");
        }
    }
}

#[test]
fn voltage_source_row_pattern() {
    // V 1 2 5 with both terminals non-ground: its branch row holds exactly
    // +1 under p, -1 under n, and v on the right-hand side.
    let net = build(vec![
        Component::Resistor { a: 1, b: 0, r: bits(10.0) },
        Component::VoltageSource { n: 1, p: 2, v: bits(5.0) },
        Component::Resistor { a: 2, b: 0, r: bits(20.0) },
    ]);
    let n = net.num_nodes + net.num_vsrc;
    assert_eq!(n, 3);
    let mut j = CooMatrix::new(n, n);
    let mut rhs = Vector::zeros(n);
    compile_linear(&net, &mut j, &mut rhs);
    let d = j.to_dense();
    let m = 2; // num_nodes + first source index
    assert_eq!(d.get(m, 1), bits(1.0)); // column of p = 2
    assert_eq!(d.get(m, 0), bits(-1.0)); // column of n = 1
    assert_eq!(d.get(m, 2), bits(0.0));
    assert_eq!(rhs.get(m), bits(5.0));
}

#[test]
fn linear_network_returns_static_solution() {
    // With no diodes, the solver returns, bit for bit, the solution of the
    // statically stamped system.
    let net = build(vec![
        Component::VoltageSource { n: 0, p: 1, v: bits(10.0) },
        Component::Resistor { a: 1, b: 2, r: bits(1000.0) },
        Component::Resistor { a: 2, b: 0, r: bits(1000.0) },
    ]);
    let n = net.num_nodes + net.num_vsrc;
    let mut j = CooMatrix::new(n, n);
    let mut rhs = Vector::zeros(n);
    compile_linear(&net, &mut j, &mut rhs);
    let xs = pixie::linalg::solve(j.to_dense(), rhs).expect("static system is regular");
    let x = solve_dc(&net).expect("linear network must solve");
    assert_eq!(x.len(), xs.len());
    for k in 0..x.len() {
        assert_eq!(x.get(k), xs.get(k));
    }
}
