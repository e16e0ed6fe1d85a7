//! Exercises the fixed-point log-domain kernel: exact fixed-point outputs,
//! closeness to true real-valued logarithms, symmetry, round trips, and the
//! far-apart cutoff.

use theorysim::logdomain::{log10add, log10sub, log10_u64, log10_from_parts, log10_parts, FAR_DECADES, SCALE};

fn to_real(x: i64) -> f64 {
    x as f64 / SCALE as f64
}

#[test]
fn add_of_equal_hundreds() {
    // 100 + 100 = 200: log10 200 = 2 + log10 2.
    let r = log10add(2 * SCALE, 2 * SCALE);
    assert_eq!(r, 2_300_768);
    assert!((to_real(r) - (2.0 + 2.0f64.log10())).abs() < 0.001);
}

#[test]
fn sub_thousand_minus_hundred() {
    // 1000 - 100 = 900: log10 900.
    let r = log10sub(3 * SCALE, 2 * SCALE);
    assert_eq!(r, 2_953_962);
    assert!((to_real(r) - 900.0f64.log10()).abs() < 0.001);
}

#[test]
fn add_matches_real_sum() {
    let pairs = [
        (2_000_000i64, 2_000_000i64),
        (5_000_000, 4_000_000),
        (1_234_567, 3_456_789),
        (0, 0),
        (7_000_000, 100_000),
        (123_000_000, 122_500_000),
    ];
    for (a, b) in pairs {
        let r = log10add(a, b);
        let got = 10f64.powf(to_real(r));
        let want = 10f64.powf(to_real(a)) + 10f64.powf(to_real(b));
        assert!((got - want).abs() / want < 0.01, "pair ({a}, {b})");
    }
}

#[test]
fn add_is_symmetric() {
    let pairs = [(2_000_000i64, 7_654_321i64), (0, 41_000_000), (999_999, 1_000_001)];
    for (a, b) in pairs {
        assert_eq!(log10add(a, b), log10add(b, a));
    }
}

#[test]
fn sub_matches_real_difference() {
    let pairs = [(3_000_000i64, 2_000_000i64), (5_119_163, 4_500_000), (1_000_000, 0)];
    for (a, b) in pairs {
        let r = log10sub(a, b);
        let got = 10f64.powf(to_real(r));
        let want = 10f64.powf(to_real(a)) - 10f64.powf(to_real(b));
        assert!((got - want).abs() / want < 0.01, "pair ({a}, {b})");
    }
}

#[test]
fn round_trip_near() {
    // Adding then subtracting the same quantity lands back on the original,
    // up to the kernel's mantissa resolution.
    let pairs = [
        (5_000_000i64, 4_500_000i64),
        (2_000_000, 2_000_000),
        (10_123_456, 9_876_543),
        (3_000_000, 1_500_000),
    ];
    for (a, b) in pairs {
        let c = log10add(a, b);
        let r = log10sub(c, b);
        assert!((r - a).abs() <= 2_000, "pair ({a}, {b}) gave {r}");
    }
}

#[test]
fn round_trip_far_is_exact() {
    // Eight or more decades apart the smaller operand is negligible and the
    // round trip is exact.
    let a = 20_000_000i64;
    let b = 1_500_000i64;
    let c = log10add(a, b);
    assert_eq!(c, a);
    assert_eq!(log10sub(c, b), a);
}

#[test]
fn far_cutoff_returns_larger() {
    // More than FAR_DECADES whole decades apart, the larger operand comes
    // back unchanged.
    let a = (FAR_DECADES + 5) * SCALE + 123_456;
    let b = 900_000i64;
    assert_eq!(log10add(a, b), a);
    assert_eq!(log10add(b, a), a);
    assert_eq!(log10sub(a, b), a);
}

#[test]
fn add_never_below_larger_operand() {
    let pairs = [(0i64, 0i64), (-3_000_000, 2_000_000), (41_000_000, 40_999_999)];
    for (a, b) in pairs {
        let r = log10add(a, b);
        let m = if a >= b { a } else { b };
        assert!(r >= m);
        assert!(r <= m + 2 * SCALE);
    }
}

#[test]
fn integer_log_values() {
    assert_eq!(log10_u64(1), 0);
    assert_eq!(log10_u64(10), SCALE);
    assert_eq!(log10_u64(1_000), 3 * SCALE);
    assert_eq!(log10_u64(2), 300_768);
    assert_eq!(log10_u64(150), 2_175_829);
    let r = log10_u64(123_456_789);
    assert!((to_real(r) - (123_456_789f64).log10()).abs() < 0.001);
}

#[test]
fn display_parts_of_round_values() {
    // log10 = 3.0: mantissa 1.00, exponent 3.
    assert_eq!(log10_parts(3 * SCALE), (100, 3));
    // log10 = 2.301: mantissa 2.00, exponent 2.
    let (m, e) = log10_parts(2 * SCALE + 301_030);
    assert_eq!(e, 2);
    assert!((199..=201).contains(&m));
    // Negative logs floor the exponent and keep the mantissa in range.
    let (m2, e2) = log10_parts(-1 * SCALE - 500_000);
    assert_eq!(e2, -2);
    assert!((100..=1000).contains(&m2));
    // Round trip: parsing the parts back lands near the original.
    for x in [0i64, 2_301_030, 7 * SCALE + 123_456, -3 * SCALE + 9_999] {
        let (m3, e3) = log10_parts(x);
        let back = log10_from_parts(m3, e3);
        assert!((back - x).abs() < 3_000, "x {x} back {back}");
    }
}

#[test]
fn parse_parts_examples() {
    // 1.00e5 parses to log10 = 5 exactly.
    assert_eq!(log10_from_parts(100, 5), 5 * SCALE);
    // 2.00e0: log10 2 at the kernel's resolution.
    let r = log10_from_parts(200, 0);
    assert!((r - 301_030).abs() < 1_000);
}
