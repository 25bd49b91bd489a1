//! A lightweight, hierarchical code-instrumentation profiler.
//!
//! Call sites mark the start and end of logical spans (a whole function, a
//! named loop, a named section); the profiler accumulates per-span timing
//! statistics in a trace table and renders a human-readable breakdown of
//! total time, per-span hit counts, and self/total time shares.
//!
//! All profiler state lives in an explicitly owned [`Profiler`] value passed
//! by reference to every operation, so the single-threaded-use contract is a
//! type-level property rather than a documented hazard.
//!
//! The aggregation algorithm is specified as pure functions in [`model`];
//! what holds of whole instrumented runs is proved in [`laws`].

pub mod clock;
pub mod fmt;
pub mod laws;
pub mod marks;
pub mod model;
pub mod profiler;
pub mod trace;

pub use clock::estimate_cpu_freq;
pub use clock::estimate_timer_freq;
pub use clock::get_os_timer_freq;
pub use clock::read_cpu_timer;
pub use clock::read_os_timer;
pub use marks::Recorder;
pub use marks::trace_begin;
pub use marks::trace_end;
pub use marks::trace_stats;
pub use profiler::ProfileError;
pub use profiler::Profiler;
pub use profiler::ScopedTrace;

pub use trace::Trace;
pub use trace::TraceId;
pub use trace::TraceIdView;
pub use trace::TraceType;
pub use trace::TraceTypeView;
pub use trace::display_of;

