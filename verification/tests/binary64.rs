//! Arithmetic on binary64 bits, held against the machine's own.

use iomon::binary64::Binary64;

fn of(v: f64) -> Binary64 {
    Binary64::from_bits(v.to_bits())
}

fn same(r: Binary64, v: f64) -> bool {
    if v.is_nan() {
        r.is_nan()
    } else {
        r.bits == v.to_bits()
    }
}

fn samples() -> Vec<f64> {
    let mut out = vec![
        0.0,
        -0.0,
        1.0,
        -1.0,
        0.5,
        1.5,
        2.0,
        3.0,
        100.0,
        1024.0,
        1e-308,
        5e-324,
        -5e-324,
        2.2250738585072014e-308,
        2.225073858507201e-308,
        1.7976931348623157e308,
        -1.7976931348623157e308,
        f64::INFINITY,
        f64::NEG_INFINITY,
        f64::NAN,
        f64::EPSILON,
        1.0 + f64::EPSILON,
        1.0 - f64::EPSILON / 2.0,
        0.1,
        0.3,
        1e7,
        1e15,
        9007199254740993.0,
        1.8446744073709552e19,
        4294967295.5,
    ];
    let mut x: u64 = 0x9e37_79b9_7f4a_7c15;
    for i in 0..120u64 {
        x ^= x << 13;
        x ^= x >> 7;
        x ^= x << 17;
        out.push(f64::from_bits(x));
        // numbers of similar size, where digits cancel
        out.push(f64::from_bits((x >> 12) | ((1023 + i % 70) << 52)));
        out.push(-f64::from_bits((x >> 12) | ((1020 + i % 9) << 52)));
    }
    out
}

#[test]
fn sums_match_the_machine() {
    let all = samples();
    for &a in &all {
        for &b in &all {
            assert!(same(of(a).plus(&of(b)), a + b), "{:e} + {:e}", a, b);
        }
    }
}

#[test]
fn products_match_the_machine() {
    let all = samples();
    for &a in &all {
        for &b in &all {
            assert!(same(of(a).times(&of(b)), a * b), "{:e} * {:e}", a, b);
        }
    }
}

#[test]
fn quotients_match_the_machine() {
    let all = samples();
    for &a in &all {
        for &b in &all {
            assert!(same(of(a).over(&of(b)), a / b), "{:e} / {:e}", a, b);
        }
    }
}

#[test]
fn comparisons_match_the_machine() {
    let all = samples();
    for &a in &all {
        for &b in &all {
            assert_eq!(of(a).lt(&of(b)), a < b);
            assert_eq!(of(a).le(&of(b)), a <= b);
            assert_eq!(of(a).order_key().cmp(&of(b).order_key()), a.total_cmp(&b));
            let max = f64::from_bits(of(a).max(&of(b)).bits);
            assert!(max == a.max(b) || (max.is_nan() && a.is_nan() && b.is_nan()));
            let min = f64::from_bits(of(a).min(&of(b)).bits);
            assert!(min == a.min(b) || (min.is_nan() && a.is_nan() && b.is_nan()));
        }
    }
}

#[test]
fn conversions_match_the_machine() {
    for &a in &samples() {
        assert_eq!(of(a).is_nan(), a.is_nan());
        assert_eq!(of(a).is_finite(), a.is_finite());
        assert_eq!(of(a).to_integer(u64::MAX), a as u64);
        assert_eq!(of(a).to_integer(u32::MAX as u64), a as u32 as u64);
        let n = a.to_bits();
        assert!(same(Binary64::from_u64(n), n as f64));
        assert!(same(Binary64::from_u64(n >> 11), (n >> 11) as f64));
    }
}
