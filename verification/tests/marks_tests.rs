use perf_core::marks::Trace;
use perf_core::Recorder;
use perf_core::trace_begin;
use perf_core::trace_end;
use perf_core::trace_stats;

#[test]
fn a_section_measures_its_own_window() {
    let mut t = Trace::new(100);
    t.end(350);
    assert_eq!(t.delta(), 250);
}

#[test]
fn recorder_tracks_sections_by_name() {
    let mut r = Recorder::new();
    assert!(!r.has_mark("load"));
    trace_begin(&mut r, "load", 10);
    assert!(r.has_mark("load"));
    assert!(!r.has_mark("parse"));
    trace_end(&mut r, "load", 60);
    let m = r.mark("load").expect("section was begun");
    assert_eq!(m.delta(), 50);
}

#[test]
fn stats_report_renders_exactly() {
    let mut r = Recorder::new();
    trace_begin(&mut r, "a", 0);
    trace_end(&mut r, "a", 100);
    trace_begin(&mut r, "b", 100);
    trace_end(&mut r, "b", 400);

    // total 400 cycles at 1 kHz is 0.4 seconds
    let lines = trace_stats(&r, 1_000);
    assert_eq!(lines.len(), 3);
    assert_eq!(lines[0], "Total time: 0.4000 (CPU freq 1000)");
    assert_eq!(lines[1], "  a: 100 (25.00%)");
    assert_eq!(lines[2], "  b: 300 (75.00%)");
}

#[test]
fn stats_report_of_an_empty_recorder() {
    let r = Recorder::new();
    let lines = trace_stats(&r, 1_000_000_000);
    assert_eq!(lines, vec![String::from("Total time: 0.0000 (CPU freq 1000000000)")]);
}

#[test]
fn stats_keep_begin_order() {
    let mut r = Recorder::new();
    trace_begin(&mut r, "late_name", 0);
    trace_begin(&mut r, "early_name", 5);
    trace_end(&mut r, "early_name", 10);
    trace_end(&mut r, "late_name", 20);
    let lines = trace_stats(&r, 1_000);
    assert!(lines[1].starts_with("  late_name: "));
    assert!(lines[2].starts_with("  early_name: "));
}
