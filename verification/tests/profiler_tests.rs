use std::collections::hash_map::DefaultHasher;
use std::hash::Hash;
use std::hash::Hasher;

use perf_core::ProfileError;
use perf_core::Profiler;
use perf_core::ScopedTrace;
use perf_core::Trace;
use perf_core::TraceId;
use perf_core::TraceType;

fn fn_id(name: &str) -> TraceId {
    TraceId { enclosing_function_name: String::from(name), ty: TraceType::Fn }
}

fn loop_id(name: &str, label: &str) -> TraceId {
    TraceId { enclosing_function_name: String::from(name), ty: TraceType::Loop(String::from(label)) }
}

fn section_id(name: &str, label: &str) -> TraceId {
    TraceId {
        enclosing_function_name: String::from(name),
        ty: TraceType::Section(String::from(label)),
    }
}

fn hash_of<T: Hash>(v: &T) -> u64 {
    let mut h = DefaultHasher::new();
    v.hash(&mut h);
    h.finish()
}

fn stats_of(p: &Profiler, id: &TraceId) -> Trace {
    p.stats(id).expect("span should have been seen")
}

#[test]
fn identities_with_equal_fields_compare_equal_and_hash_identically() {
    let a = loop_id("f", "work");
    let b = loop_id("f", "work");
    assert_eq!(a, b);
    assert_eq!(hash_of(&a), hash_of(&b));

    assert!(fn_id("f") == fn_id("f"));
    assert!(section_id("g", "s") == section_id("g", "s"));
}

#[test]
fn identities_differing_in_any_field_compare_unequal() {
    assert!(loop_id("f", "work") != loop_id("g", "work"));
    assert!(loop_id("f", "work") != loop_id("f", "other"));
    assert!(loop_id("f", "work") != section_id("f", "work"));
    assert!(fn_id("f") != fn_id("g"));
    assert!(fn_id("f") != loop_id("f", "f"));
}

#[test]
fn display_forms() {
    assert_eq!(fn_id("compute").display_name(), "compute::fn");
    assert_eq!(loop_id("compute", "work").display_name(), "compute::work::loop");
    assert_eq!(section_id("compute", "setup").display_name(), "compute::setup::section");
}

#[test]
fn order_is_assigned_in_first_seen_sequence() {
    let mut p = Profiler::new();
    let a = ScopedTrace::new_fn(&mut p, "a", 0);
    a.exit(&mut p, 1);
    let b = ScopedTrace::new_fn(&mut p, "b", 2);
    b.exit(&mut p, 3);
    // re-entering `a` must not change its order
    let a2 = ScopedTrace::new_fn(&mut p, "a", 4);
    a2.exit(&mut p, 5);
    let c = ScopedTrace::new_fn(&mut p, "c", 6);
    c.exit(&mut p, 7);

    assert_eq!(stats_of(&p, &fn_id("a")).order, 0);
    assert_eq!(stats_of(&p, &fn_id("b")).order, 1);
    assert_eq!(stats_of(&p, &fn_id("c")).order, 2);
    assert_eq!(p.span_count(), 3);
}

#[test]
fn hit_count_counts_enter_exit_pairs_exactly() {
    let mut p = Profiler::new();
    // a { b } a { b { c } b } -- interleaved siblings and nesting
    let a1 = ScopedTrace::new_fn(&mut p, "a", 0);
    let b1 = ScopedTrace::new_fn(&mut p, "b", 10);
    b1.exit(&mut p, 20);
    a1.exit(&mut p, 30);
    let a2 = ScopedTrace::new_fn(&mut p, "a", 40);
    let b2 = ScopedTrace::new_fn(&mut p, "b", 50);
    let c1 = ScopedTrace::new_fn(&mut p, "c", 60);
    c1.exit(&mut p, 70);
    b2.exit(&mut p, 80);
    a2.exit(&mut p, 90);

    assert_eq!(stats_of(&p, &fn_id("a")).hit_count, 2);
    assert_eq!(stats_of(&p, &fn_id("b")).hit_count, 2);
    assert_eq!(stats_of(&p, &fn_id("c")).hit_count, 1);
}

#[test]
fn leaf_span_exclusive_equals_inclusive_and_accumulates() {
    let mut p = Profiler::new();
    let t1 = ScopedTrace::new_fn(&mut p, "leaf", 0);
    t1.exit(&mut p, 100);
    let t2 = ScopedTrace::new_fn(&mut p, "leaf", 200);
    t2.exit(&mut p, 250);
    let t3 = ScopedTrace::new_fn(&mut p, "leaf", 300);
    t3.exit(&mut p, 301);

    let s = stats_of(&p, &fn_id("leaf"));
    assert_eq!(s.elapsed_exclusive, 151);
    assert_eq!(s.elapsed_inclusive, 151);
    assert_eq!(s.hit_count, 3);
}

#[test]
fn exclusive_times_partition_the_measured_window() {
    let mut p = Profiler::new();
    // root covers [0, 1000]; children tile parts of it; a second root
    // starts exactly where the first ended, so no time falls outside.
    let root = ScopedTrace::new_fn(&mut p, "root", 0);
    let child = ScopedTrace::new_fn(&mut p, "child", 100);
    let grand = ScopedTrace::new_fn(&mut p, "grand", 200);
    grand.exit(&mut p, 300);
    child.exit(&mut p, 500);
    root.exit(&mut p, 600);
    let tail = ScopedTrace::new_fn(&mut p, "tail", 600);
    tail.exit(&mut p, 1000);

    let sum = stats_of(&p, &fn_id("root")).elapsed_exclusive
        + stats_of(&p, &fn_id("child")).elapsed_exclusive
        + stats_of(&p, &fn_id("grand")).elapsed_exclusive
        + stats_of(&p, &fn_id("tail")).elapsed_exclusive;
    assert_eq!(sum, 1000);
}

#[test]
fn scenario_function_with_loop_run_three_times() {
    let mut p = Profiler::new();
    let f = ScopedTrace::new_fn(&mut p, "f", 0);
    let l1 = ScopedTrace::new_loop(&mut p, "f", "work", 10);
    l1.exit(&mut p, 110);
    let l2 = ScopedTrace::new_loop(&mut p, "f", "work", 110);
    l2.exit(&mut p, 210);
    let l3 = ScopedTrace::new_loop(&mut p, "f", "work", 210);
    l3.exit(&mut p, 310);
    f.exit(&mut p, 320);

    let fs = stats_of(&p, &fn_id("f"));
    assert_eq!(fs.hit_count, 1);
    assert_eq!(fs.elapsed_inclusive, 320);
    // only the overhead outside the loop remains with `f`
    assert_eq!(fs.elapsed_exclusive, 20);

    let ls = stats_of(&p, &loop_id("f", "work"));
    assert_eq!(ls.hit_count, 3);
    assert_eq!(ls.elapsed_exclusive, 300);
    assert_eq!(ls.elapsed_inclusive, 300);
}

#[test]
fn scenario_end_without_begin_is_a_fatal_usage_error() {
    let p = Profiler::new();
    assert_eq!(p.end_profile(12345), Err(ProfileError::NotStarted));
}

#[test]
fn scenario_end_not_after_start_is_a_fatal_usage_error() {
    let mut p = Profiler::new();
    p.begin_profile_with(1_000, 500);
    assert_eq!(p.end_profile(500), Err(ProfileError::EndNotAfterStart));
    assert_eq!(p.end_profile(4), Err(ProfileError::EndNotAfterStart));
}

#[test]
fn scenario_sibling_spans_subtract_from_parent_exactly() {
    let mut p = Profiler::new();
    let parent = ScopedTrace::new_fn(&mut p, "parent", 0);
    let c1 = ScopedTrace::new_fn(&mut p, "one", 10);
    c1.exit(&mut p, 30); // d1 = 20
    let c2 = ScopedTrace::new_fn(&mut p, "two", 40);
    c2.exit(&mut p, 80); // d2 = 40
    parent.exit(&mut p, 100); // raw duration 100

    let ps = stats_of(&p, &fn_id("parent"));
    assert_eq!(ps.elapsed_exclusive, 100 - (20 + 40));
    assert_eq!(ps.elapsed_inclusive, 100);
}

#[test]
fn recursive_reentry_keeps_only_latest_inclusive_chain() {
    // Re-entering an open span snapshots the inclusive figure at entry and
    // overwrites it at exit; the hit count still counts both pairs.
    let mut p = Profiler::new();
    let outer = ScopedTrace::new_fn(&mut p, "r", 0);
    let inner = ScopedTrace::new_fn(&mut p, "r", 10);
    inner.exit(&mut p, 20);
    outer.exit(&mut p, 30);

    let s = stats_of(&p, &fn_id("r"));
    assert_eq!(s.hit_count, 2);
    // inner added 10 and subtracted 10 from its own parent (itself);
    // the outer exit then added its full 30.
    assert_eq!(s.elapsed_exclusive, 30);
    // the outer exit chained onto the figure before the outer entry
    assert_eq!(s.elapsed_inclusive, 30);
}

#[test]
fn report_lines_render_exactly() {
    let mut p = Profiler::new();
    p.begin_profile_with(1_000_000_000, 0);
    let f = ScopedTrace::new_fn(&mut p, "f", 0);
    let l = ScopedTrace::new_loop(&mut p, "f", "work", 100);
    l.exit(&mut p, 350); // leaf span of 250 cycles
    f.exit(&mut p, 1000);

    let lines = p.end_profile(1000).expect("report should render");
    assert_eq!(lines.len(), 3);
    // 1000 cycles at 1 GHz is 0.001 ms, shown with four fraction digits
    assert_eq!(lines[0], "Total time: 0.0010 ms (CPU freq 1000000000)");
    // f has a measured child: exclusive figure plus both percentages
    assert_eq!(lines[1], "  f::fn[1]: 750 (75.00%, 100.00% w/ children)");
    // the loop is a leaf: one figure, one percentage
    assert_eq!(lines[2], "  f::work::loop[1]: 250 (25.00%)");
}

#[test]
fn report_rounds_percentages_to_nearest_hundredth() {
    let mut p = Profiler::new();
    p.begin_profile_with(1_000_000_000, 0);
    let a = ScopedTrace::new_fn(&mut p, "a", 0);
    a.exit(&mut p, 1); // 1 of 3 cycles: 33.33...% rounds to 33.33
    let b = ScopedTrace::new_fn(&mut p, "b", 1);
    b.exit(&mut p, 3); // 2 of 3 cycles: 66.66...% rounds to 66.67

    let lines = p.end_profile(3).expect("report should render");
    assert_eq!(lines[1], "  a::fn[1]: 1 (33.33%)");
    assert_eq!(lines[2], "  b::fn[1]: 2 (66.67%)");
}

#[test]
fn report_with_no_spans_is_just_the_total_line() {
    let mut p = Profiler::new();
    p.begin_profile_with(2_000, 100);
    let lines = p.end_profile(1100).expect("report should render");
    // 1000 cycles at 2 kHz is 500 ms
    assert_eq!(lines, vec![String::from("Total time: 500.0000 ms (CPU freq 2000)")]);
}

#[test]
fn begin_profile_twice_is_a_no_op() {
    let mut p = Profiler::new();
    p.begin_profile_with(5_000, 10);
    p.begin_profile_with(9_999, 77);
    let lines = p.end_profile(5010).expect("report should render");
    assert_eq!(lines[0], "Total time: 1000.0000 ms (CPU freq 5000)");
}

#[test]
fn profile_with_the_real_clock_renders_a_report() {
    let mut p = Profiler::new();
    p.begin_profile_with(1_000_000_000, perf_core::read_cpu_timer());
    let t = ScopedTrace::new_fn(&mut p, "real", perf_core::read_cpu_timer());
    let begin = t.begin();
    let mut now = perf_core::read_cpu_timer();
    while now <= begin {
        now = perf_core::read_cpu_timer();
    }
    t.exit(&mut p, now);
    let mut end = perf_core::read_cpu_timer();
    loop {
        match p.end_profile(end) {
            Ok(lines) => {
                assert!(lines.len() == 2);
                assert!(lines[0].starts_with("Total time: "));
                assert!(lines[1].starts_with("  real::fn[1]: "));
                break;
            },
            Err(_) => {
                end = perf_core::read_cpu_timer();
            },
        }
    }
}

#[test]
fn counters_saturate_at_type_bounds() {
    let mut p = Profiler::new();
    let t = ScopedTrace::new_fn(&mut p, "huge", 0);
    t.exit(&mut p, u64::MAX);
    let s = stats_of(&p, &fn_id("huge"));
    // the duration exceeds i64::MAX, so the exclusive total clamps there
    assert_eq!(s.elapsed_exclusive, i64::MAX);
    assert_eq!(s.elapsed_inclusive, u64::MAX);
    assert_eq!(s.hit_count, 1);
}
