use bm25::fixed::{add_sat, idf_fixed, ln_fixed, log2_fixed, mul_div_sat, mul_sat, sub_clamped};

const SCALE: f64 = 65536.0;

#[test]
fn saturating_arithmetic_is_exact_in_range() {
    assert_eq!(add_sat(3, 4), 7);
    assert_eq!(mul_sat(6, 7), 42);
    assert_eq!(mul_div_sat(10, 9, 3), 30);
    assert_eq!(sub_clamped(9, 4), 5);
    assert_eq!(sub_clamped(4, 9), 0);
}

#[test]
fn saturating_arithmetic_caps_at_max() {
    assert_eq!(add_sat(u64::MAX, 5), u64::MAX);
    assert_eq!(mul_sat(u64::MAX, 2), u64::MAX);
    assert_eq!(mul_div_sat(u64::MAX, 4, 2), u64::MAX);
}

#[test]
fn log_of_powers_of_two_is_exact() {
    assert_eq!(log2_fixed(1), 0);
    assert_eq!(log2_fixed(2), 65536);
    assert_eq!(log2_fixed(4), 131072);
    assert_eq!(log2_fixed(1024), 10 * 65536);
    assert_eq!(ln_fixed(1), 0);
    assert_eq!(ln_fixed(2), 45426);
}

#[test]
fn log_approximates_the_natural_logarithm() {
    for x in [3u64, 5, 7, 10, 100, 1000, 123456] {
        let got = ln_fixed(x) as f64 / SCALE;
        let want = (x as f64).ln();
        assert!((got - want).abs() < 1e-3, "ln({x}): got {got}, want {want}");
    }
}

#[test]
fn idf_is_log_of_ratio() {
    let got = idf_fixed(5, 3) as f64 / SCALE;
    let want = (5.0f64 / 3.0).ln();
    assert!((got - want).abs() < 1e-3);
    assert_eq!(idf_fixed(5, 5), 0);
    assert_eq!(idf_fixed(0, 3), 0);
    assert_eq!(idf_fixed(5, 0), 0);
}
