//! The bit-pattern scalar layer: arithmetic wrappers, comparisons, and the
//! exponential.

use pixie::fp::{abs_b, add_b, div_b, exp_b, gt_b, is_zero_b, le_b, mul_b, neg_b, sub_b};

fn bits(x: f64) -> u64 {
    x.to_bits()
}

fn val(x: u64) -> f64 {
    f64::from_bits(x)
}

fn same_number(got: u64, want: u64, what: &str) {
    // NaN payloads and signs are not pinned by IEEE-754; any NaN matches
    // any NaN, everything else matches bit for bit.
    if f64::from_bits(want).is_nan() {
        assert!(f64::from_bits(got).is_nan(), "{what}: got {got:#x}, want a NaN");
    } else {
        assert_eq!(got, want, "{what}");
    }
}

#[test]
fn arithmetic_matches_native() {
    let samples: [f64; 9] = [0.0, -0.0, 1.0, -1.5, 1e-300, 1e300, 0.1, -7.25, 3.5e-12];
    for &a in samples.iter() {
        for &b in samples.iter() {
            same_number(add_b(bits(a), bits(b)), bits(a + b), "+");
            same_number(sub_b(bits(a), bits(b)), bits(a - b), "-");
            same_number(mul_b(bits(a), bits(b)), bits(a * b), "*");
            same_number(div_b(bits(a), bits(b)), bits(a / b), "/");
        }
    }
}

#[test]
fn comparisons_match_native() {
    let samples: [f64; 12] = [
        0.0,
        -0.0,
        1.0,
        -1.0,
        1.5,
        -1.5,
        f64::INFINITY,
        f64::NEG_INFINITY,
        f64::NAN,
        1e-308,
        -1e-308,
        255.75,
    ];
    for &a in samples.iter() {
        for &b in samples.iter() {
            assert_eq!(gt_b(bits(a), bits(b)), a > b, "{a} > {b}");
            assert_eq!(le_b(bits(a), bits(b)), a <= b, "{a} <= {b}");
        }
        assert_eq!(is_zero_b(bits(a)), a == 0.0, "{a} == 0");
    }
}

#[test]
fn negation_and_absolute_value() {
    assert_eq!(neg_b(bits(3.5)), bits(-3.5));
    assert_eq!(neg_b(neg_b(bits(2.25))), bits(2.25));
    assert_eq!(abs_b(bits(-3.5)), bits(3.5));
    assert_eq!(abs_b(bits(3.5)), bits(3.5));
    assert_eq!(abs_b(bits(-0.0)), bits(0.0));
}

#[test]
fn exponential_of_zero_is_one() {
    assert_eq!(exp_b(bits(0.0)), bits(1.0));
}

#[test]
fn exponential_is_accurate() {
    let samples: [f64; 7] = [1.0, -1.0, 0.5, -5.0, 10.0, 386.8, -20.0];
    for &a in samples.iter() {
        let got = val(exp_b(bits(a)));
        let want = a.exp();
        let rel = ((got - want) / want).abs();
        assert!(rel < 1e-10, "exp({a}): got {got}, want {want}");
    }
}

#[test]
fn exponential_saturates() {
    assert!(val(exp_b(bits(800.0))) == f64::INFINITY);
    assert!(val(exp_b(bits(f64::INFINITY))) == f64::INFINITY);
    assert_eq!(exp_b(bits(-800.0)), bits(0.0));
    assert_eq!(exp_b(bits(f64::NEG_INFINITY)), bits(0.0));
    assert!(val(exp_b(bits(f64::NAN))).is_nan());
}
