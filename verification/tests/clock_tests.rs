use perf_core::clock::freq_from_elapsed;
use perf_core::clock::nanos_from_parts;
use perf_core::estimate_cpu_freq;
use perf_core::estimate_timer_freq;
use perf_core::get_os_timer_freq;
use perf_core::read_cpu_timer;
use perf_core::read_os_timer;

#[test]
fn playground() {
    let milliseconds_to_wait = 1_00u64;
    let os_freq = get_os_timer_freq();
    println!("OS Freq: {os_freq}");

    let cpu_start = read_cpu_timer();
    let os_start = read_os_timer();

    let mut os_end = 0u64;
    let mut os_elapsed = 0u64;
    let os_wait_time = os_freq * milliseconds_to_wait / 1000;
    while os_elapsed < os_wait_time {
        os_end = read_os_timer();
        os_elapsed = os_end - os_start;
    }

    let cpu_end = read_cpu_timer();
    let cpu_elapsed = cpu_end - cpu_start;
    let cpu_freq = os_freq * cpu_elapsed / os_elapsed;

    println!("OS Timer: {os_start} -> {os_end} = {os_elapsed}");
    println!("OS Seconds: {}", os_elapsed as f64 / os_freq as f64);

    println!("CPU Timer: {cpu_start} -> {cpu_end} = {cpu_elapsed}");
    println!("CPU Freq: {cpu_freq}");
}

#[test]
fn os_timer_frequency_is_nanoseconds() {
    assert_eq!(get_os_timer_freq(), 1_000_000_000);
}

#[test]
fn monotonic_timer_advances() {
    let a = read_os_timer();
    let mut b = read_os_timer();
    while b <= a {
        b = read_os_timer();
    }
    assert!(b > a);
}

#[test]
fn estimated_frequency_is_positive() {
    // the timer races the OS clock itself, so the estimate comes out near
    // the OS clock's own rate
    let f = estimate_timer_freq(10);
    assert!(f >= 1);
    let g = estimate_cpu_freq(10);
    assert!(g >= 1);
}

#[test]
fn frequency_estimate_rounds_to_nearest() {
    // 1000 ticks against 1000 ns is exactly 1 GHz
    assert_eq!(freq_from_elapsed(1000, 1000), 1_000_000_000);
    // 3 ticks against 2 seconds is 1.5 ticks per second: rounds up to 2,
    // where a truncating quotient would give 1
    assert_eq!(freq_from_elapsed(3, 2_000_000_000), 2);
    // 4 ticks against 3 seconds is 1.33...: rounds down to 1
    assert_eq!(freq_from_elapsed(4, 3_000_000_000), 1);
    // no measured ticks still yields a usable (positive) frequency
    assert_eq!(freq_from_elapsed(0, 1_000_000), 1);
    // a zero wall delta divides as one nanosecond
    assert_eq!(freq_from_elapsed(5, 0), 5_000_000_000);
}

#[test]
fn clock_parts_normalize_exactly() {
    assert_eq!(nanos_from_parts(0, 0), 0);
    assert_eq!(nanos_from_parts(1, 500_000_000), 1_500_000_000);
    assert_eq!(nanos_from_parts(3, 7), 3_000_000_007);
    // a reading before the epoch clamps to zero
    assert_eq!(nanos_from_parts(-1, 999_999_999), 0);
    // a combined count beyond u64 clamps to the maximum
    assert_eq!(nanos_from_parts(i64::MAX, 999_999_999), u64::MAX);
}
