use perf_core::fmt::push_fixed2;
use perf_core::fmt::push_fixed4;
use perf_core::fmt::push_i64;
use perf_core::fmt::push_percent;
use perf_core::fmt::u64_to_string;

#[test]
fn decimal_rendering_is_exact() {
    assert_eq!(u64_to_string(0), "0");
    assert_eq!(u64_to_string(7), "7");
    assert_eq!(u64_to_string(10), "10");
    assert_eq!(u64_to_string(1_234_567_890), "1234567890");
    assert_eq!(u64_to_string(u64::MAX), "18446744073709551615");
}

#[test]
fn signed_rendering_is_exact() {
    let mut s = String::new();
    push_i64(&mut s, -12345);
    push_i64(&mut s, 0);
    push_i64(&mut s, i64::MIN);
    assert_eq!(s, "-123450-9223372036854775808");
}

#[test]
fn fixed_point_rendering_pads_fractions() {
    let mut s = String::new();
    push_fixed2(&mut s, 1234);
    s.push(' ');
    push_fixed2(&mut s, 5);
    assert_eq!(s, "12.34 0.05");

    let mut t = String::new();
    push_fixed4(&mut t, 10);
    t.push(' ');
    push_fixed4(&mut t, 123456789);
    assert_eq!(t, "0.0010 12345.6789");
}

#[test]
fn percentages_round_half_away_from_zero() {
    let mut s = String::new();
    push_percent(&mut s, 1, 8); // 12.5% rounds up to 12.50 exactly
    s.push(' ');
    push_percent(&mut s, 1, 3); // 33.333...%
    s.push(' ');
    push_percent(&mut s, 2, 3); // 66.666...%
    s.push(' ');
    push_percent(&mut s, -1, 3); // negative share keeps its sign
    s.push(' ');
    push_percent(&mut s, 0, 7);
    assert_eq!(s, "12.50 33.33 66.67 -33.33 0.00");
}
