//! The profiler context: the trace table, the active-span tracker, and the
//! scoped-span tokens that drive the hierarchical time accounting.
//!
//! All state is owned by a [`Profiler`] value; every operation takes it by
//! reference. Entering a span yields a [`ScopedTrace`] token; exiting with
//! that token updates the table exactly as the model in [`crate::model`]
//! prescribes.

use vstd::prelude::*;
use vstd::string::StringExecFns;

use crate::clock::estimate_timer_freq;
use crate::clock::read_cpu_timer;
use crate::fmt::dec_rep;
use crate::fmt::dec_rep_signed;
use crate::fmt::four_digits;
use crate::fmt::percent_chars;
use crate::fmt::push_fixed4;
use crate::fmt::push_i64;
use crate::fmt::push_percent;
use crate::fmt::push_u64;
use crate::fmt::push_usize;
use crate::model::EntryView;
use crate::model::StateView;
use crate::model::TokenView;
use crate::model::empty_state;
use crate::model::enter_entries;
use crate::model::enter_model;
use crate::model::enter_token;
use crate::model::exit_model;
use crate::model::exit_upd_own;
use crate::model::has_id;
use crate::model::idx_of;
use crate::model::incl_before;
use crate::model::lemma_enter_wf;
use crate::model::lemma_exit_wf;
use crate::model::lemma_idx_of;
use crate::model::sat_count;
use crate::model::sat_signed;
use crate::model::sat_unsigned;
use crate::model::state_wf;
use crate::model::token_wf;
use crate::trace::Trace;
use crate::trace::display_of;
use crate::trace::TraceId;
use crate::trace::TraceIdView;
use crate::trace::TraceType;
use crate::trace::TraceTypeView;

verus! {

/// The identity of a whole-function span of `name`.
pub open spec fn fn_id(name: Seq<char>) -> TraceIdView {
    TraceIdView { enclosing_function_name: name, ty: TraceTypeView::Fn }
}

/// The identity of the loop span `loop_name` inside function `name`.
pub open spec fn loop_id(name: Seq<char>, loop_name: Seq<char>) -> TraceIdView {
    TraceIdView { enclosing_function_name: name, ty: TraceTypeView::Loop(loop_name) }
}

/// The identity of the section span `section_name` inside function `name`.
pub open spec fn section_id(name: Seq<char>, section_name: Seq<char>) -> TraceIdView {
    TraceIdView { enclosing_function_name: name, ty: TraceTypeView::Section(section_name) }
}

/// Exclusive-time accumulation: `a + d` clamped to `i64`.
fn add_excl(a: i64, d: u64) -> (r: i64)
    ensures
        r as int == sat_signed(a + d),
{
    let s: i128 = a as i128 + d as i128;
    if s > i64::MAX as i128 {
        i64::MAX
    } else {
        s as i64
    }
}

/// Exclusive-time correction: `a - d` clamped to `i64`.
fn sub_excl(a: i64, d: u64) -> (r: i64)
    ensures
        r as int == sat_signed(a - d),
{
    let s: i128 = a as i128 - d as i128;
    if s < i64::MIN as i128 {
        i64::MIN
    } else {
        s as i64
    }
}

/// Inclusive-time accumulation: `a + d` clamped to `u64`.
fn add_incl(a: u64, d: u64) -> (r: u64)
    ensures
        r as int == sat_unsigned(a + d),
{
    if a > u64::MAX - d {
        u64::MAX
    } else {
        a + d
    }
}

/// Hit-count step: `h + 1` clamped to `usize`.
fn bump(h: usize) -> (r: usize)
    ensures
        r as int == sat_count(h + 1),
{
    if h == usize::MAX {
        h
    } else {
        h + 1
    }
}

/// The owned profiler context: the trace table in first-seen order and the
/// identity of the span currently executing.
pub struct Profiler {
    ids: Vec<TraceId>,
    stats: Vec<Trace>,
    current: Option<TraceId>,
    started: bool,
    timer_freq: u64,
    start_ts: u64,
}

impl View for Profiler {
    type V = StateView;

    closed spec fn view(&self) -> StateView {
        StateView {
            entries: Seq::new(
                self.ids@.len(),
                |i: int|
                    EntryView {
                        id: self.ids@[i]@,
                        excl: self.stats@[i].elapsed_exclusive as int,
                        incl: self.stats@[i].elapsed_inclusive as int,
                        hits: self.stats@[i].hit_count as int,
                        order: self.stats@[i].order as int,
                    },
            ),
            current: match self.current {
                Option::Some(ref c) => Option::Some(c@),
                Option::None => Option::None,
            },
        }
    }
}

impl Profiler {
    /// Whether `begin_profile` has run on this context.
    pub closed spec fn is_started(&self) -> bool {
        self.started
    }

    /// The calibrated timer frequency (counts per second), at least one
    /// once the profiler has started.
    pub closed spec fn freq(&self) -> u64 {
        self.timer_freq
    }

    /// The cycle count recorded when the profiler started.
    pub closed spec fn start_time(&self) -> u64 {
        self.start_ts
    }

    /// The context is well formed: the table rows and the model state
    /// agree, and a started profiler has a positive frequency.
    pub closed spec fn wf(&self) -> bool {
        &&& self.ids@.len() == self.stats@.len()
        &&& state_wf(self@)
        &&& self.started ==> self.timer_freq >= 1
    }

    /// A well-formed context's model state is itself well formed: the
    /// identities are distinct, rows stand in first-seen order, and the
    /// active span has a row.
    pub proof fn lemma_wf_state(&self)
        requires
            self.wf(),
        ensures
            state_wf(self@),
    {
    }

    /// A fresh context: no spans seen, none active, not started.
    pub fn new() -> (r: Profiler)
        ensures
            r.wf(),
            r@ == empty_state(),
            !r.is_started(),
    {
        let r = Profiler {
            ids: Vec::new(),
            stats: Vec::new(),
            current: Option::None,
            started: false,
            timer_freq: 1,
            start_ts: 0,
        };
        proof {
            assert(r@ =~= empty_state());
        }
        r
    }

    /// The number of distinct span identities seen so far.
    pub fn span_count(&self) -> (n: usize)
        ensures
            n == self@.entries.len(),
    {
        self.ids.len()
    }

    /// Looks up the table row of `id`, scanning in first-seen order.
    fn find_entry(&self, id: &TraceId) -> (r: Option<usize>)
        ensures
            match r {
                Option::Some(i) => 0 <= i < self@.entries.len() && self@.entries[i as int].id
                    == id@,
                Option::None => !has_id(self@.entries, id@),
            },
    {
        let n = self.ids.len();
        let mut k: usize = 0;
        while k < n
            invariant
                n == self.ids@.len(),
                k <= n,
                forall|j: int| 0 <= j < k ==> self@.entries[j].id != id@,
            decreases n - k,
        {
            let candidate: &TraceId = &self.ids[k];
            if candidate.eq(id) {
                return Option::Some(k);
            }
            k += 1;
        }
        Option::None
    }

    /// The accumulated statistics of `id`, if that span has been seen.
    pub fn stats(&self, id: &TraceId) -> (r: Option<Trace>)
        requires
            self.wf(),
        ensures
            match r {
                Option::Some(t) => {
                    &&& has_id(self@.entries, id@)
                    &&& t.elapsed_exclusive as int == self@.entries[idx_of(self@.entries, id@)].excl
                    &&& t.elapsed_inclusive as int == self@.entries[idx_of(self@.entries, id@)].incl
                    &&& t.hit_count as int == self@.entries[idx_of(self@.entries, id@)].hits
                    &&& t.order as int == self@.entries[idx_of(self@.entries, id@)].order
                },
                Option::None => !has_id(self@.entries, id@),
            },
    {
        match self.find_entry(id) {
            Option::Some(i) => {
                proof {
                    assert(has_id(self@.entries, id@));
                    lemma_idx_of(self@.entries, id@);
                }
                Option::Some(self.stats[i])
            },
            Option::None => Option::None,
        }
    }

    /// Enters the span `id` at cycle count `now`: creates its row on first
    /// sight, captures the active span as the token's parent, and makes
    /// `id` the active span.
    pub fn enter_at(&mut self, id: TraceId, now: u64) -> (tok: ScopedTrace)
        requires
            old(self).wf(),
        ensures
            final(self).wf(),
            final(self)@ == enter_model(old(self)@, id@, now as int),
            tok@ == enter_token(old(self)@, id@, now as int),
            token_wf(final(self)@, tok@),
            forall|x: TraceIdView|
                has_id(old(self)@.entries, x) ==> has_id(final(self)@.entries, x),
            final(self).is_started() == old(self).is_started(),
            final(self).freq() == old(self).freq(),
            final(self).start_time() == old(self).start_time(),
    {
        let ghost pre = self@;
        let old_incl: u64;
        match self.find_entry(&id) {
            Option::Some(i) => {
                proof {
                    assert(has_id(pre.entries, id@));
                    lemma_idx_of(pre.entries, id@);
                }
                old_incl = self.stats[i].elapsed_inclusive;
            },
            Option::None => {
                let n = self.ids.len();
                self.ids.push(id.clone());
                self.stats.push(Trace::new(n));
                old_incl = 0;
            },
        }
        let parent: Option<TraceId> = match &self.current {
            Option::Some(c) => Option::Some(c.clone()),
            Option::None => Option::None,
        };
        self.current = Option::Some(id.clone());
        let tok = ScopedTrace { trace_id: id, parent, begin: now, old_elapsed_inclusive: old_incl };
        proof {
            assert(self@.entries =~= enter_entries(pre.entries, id@));
            assert(self@ =~= enter_model(pre, id@, now as int));
            assert(old_incl as int == incl_before(pre.entries, id@));
            lemma_enter_wf(pre, id@, now as int);
            lemma_idx_of(self@.entries, id@);
            match pre.current {
                Option::Some(c) => {
                    lemma_idx_of(pre.entries, c);
                    let k = idx_of(pre.entries, c);
                    assert(self@.entries[k].id == c);
                    assert(has_id(self@.entries, c));
                },
                Option::None => {},
            }
            assert forall|x: TraceIdView| has_id(pre.entries, x) implies has_id(
                self@.entries,
                x,
            ) by {
                lemma_idx_of(pre.entries, x);
                let k = idx_of(pre.entries, x);
                assert(self@.entries[k].id == x);
            }
        }
        tok
    }

    /// Exits the span of token `tok` at cycle count `now`: accumulates the
    /// duration into the span's row, corrects the parent's exclusive
    /// total, and restores the parent as the active span.
    ///
    /// An exit without a matching enter is an instrumentation bug, not a
    /// runtime condition; the preconditions rule it out.
    pub fn exit_at(&mut self, tok: ScopedTrace, now: u64)
        requires
            old(self).wf(),
            token_wf(old(self)@, tok@),
            now as int >= tok@.begin,
        ensures
            final(self).wf(),
            final(self)@ == exit_model(old(self)@, tok@, now as int),
            forall|x: TraceIdView|
                has_id(old(self)@.entries, x) ==> has_id(final(self)@.entries, x),
            final(self).is_started() == old(self).is_started(),
            final(self).freq() == old(self).freq(),
            final(self).start_time() == old(self).start_time(),
    {
        let ghost pre = self@;
        proof {
            lemma_idx_of(pre.entries, tok@.id);
            lemma_exit_wf(pre, tok@, now as int);
        }
        let d: u64 = now - tok.begin;
        let i: usize = match self.find_entry(&tok.trace_id) {
            Option::Some(i) => i,
            Option::None => {
                proof {
                    assert(false);
                }
                0
            },
        };
        let t = self.stats[i];
        let updated = Trace {
            elapsed_exclusive: add_excl(t.elapsed_exclusive, d),
            elapsed_inclusive: add_incl(tok.old_elapsed_inclusive, d),
            hit_count: bump(t.hit_count),
            order: t.order,
        };
        self.stats[i] = updated;
        let ghost own = pre.entries.update(
            i as int,
            exit_upd_own(pre.entries[i as int], d as int, tok@.old_incl),
        );
        proof {
            assert(self@.entries =~= own);
            assert(forall|k: int| 0 <= k < own.len() ==> (#[trigger] own[k]).id == pre.entries[k].id);
        }
        match &tok.parent {
            Option::Some(p) => {
                proof {
                    lemma_idx_of(pre.entries, p@);
                    assert(has_id(self@.entries, p@)) by {
                        let k = idx_of(pre.entries, p@);
                        assert(self@.entries[k].id == p@);
                    }
                }
                let j: usize = match self.find_entry(p) {
                    Option::Some(j) => j,
                    Option::None => {
                        proof {
                            assert(false);
                        }
                        0
                    },
                };
                proof {
                    lemma_idx_of(own, p@);
                }
                let tp = self.stats[j];
                let corrected = Trace {
                    elapsed_exclusive: sub_excl(tp.elapsed_exclusive, d),
                    elapsed_inclusive: tp.elapsed_inclusive,
                    hit_count: tp.hit_count,
                    order: tp.order,
                };
                self.stats[j] = corrected;
            },
            Option::None => {},
        }
        self.current = tok.parent;
        proof {
            assert(self@ =~= exit_model(pre, tok@, now as int));
            assert forall|x: TraceIdView| has_id(pre.entries, x) implies has_id(
                self@.entries,
                x,
            ) by {
                lemma_idx_of(pre.entries, x);
                let k = idx_of(pre.entries, x);
                assert(self@.entries[k].id == x);
            }
        }
    }
}

/// A fatal usage error: the measurement is meaningless, so there is no
/// recovery value.
#[derive(Debug, Clone, Copy, PartialEq, Eq, Structural)]
pub enum ProfileError {
    /// The report was requested on a profiler that never started.
    NotStarted,
    /// The end timestamp does not lie after the recorded start.
    EndNotAfterStart,
}

/// Total elapsed cycles `total` at frequency `freq`, in ten-thousandths of
/// a millisecond.
pub open spec fn ms_e4(total: int, freq: int) -> int
    recommends
        freq >= 1,
{
    total * 10_000_000 / freq
}

/// The report's first line: the total time in milliseconds with four
/// fraction digits, and the calibrated frequency.
pub open spec fn header_chars(total: int, freq: int) -> Seq<char> {
    "Total time: "@ + (dec_rep(ms_e4(total, freq) / 10_000) + seq!['.'] + four_digits(
        ms_e4(total, freq) % 10_000,
    )) + " ms (CPU freq "@ + dec_rep(freq) + ")"@
}

/// One report line for the row `e` against `total` elapsed cycles. A span
/// that never had a measured child (its exclusive and inclusive totals
/// agree, exclusive nonnegative) shows one figure and one percentage; any
/// other span also shows its share with children included.
pub open spec fn span_line_chars(e: EntryView, total: int) -> Seq<char> {
    if e.excl >= 0 && e.excl == e.incl {
        "  "@ + display_of(e.id) + "["@ + dec_rep(e.hits) + "]: "@ + dec_rep(e.incl) + " ("@
            + percent_chars(e.incl, total) + "%)"@
    } else {
        "  "@ + display_of(e.id) + "["@ + dec_rep(e.hits) + "]: "@ + dec_rep_signed(e.excl)
            + " ("@ + percent_chars(e.excl, total) + "%, "@ + percent_chars(e.incl, total)
            + "% w/ children)"@
    }
}

/// The whole report: the header, then one line per span in first-seen
/// order.
pub open spec fn report_chars(s: StateView, total: int, freq: int) -> Seq<Seq<char>> {
    seq![header_chars(total, freq)] + Seq::new(
        s.entries.len(),
        |i: int| span_line_chars(s.entries[i], total),
    )
}

/// The report's first line, rendered.
fn render_header(total: u64, freq: u64) -> (r: String)
    requires
        freq >= 1,
    ensures
        r@ == header_chars(total as int, freq as int),
{
    let mut s = String::from_str("Total time: ");
    let v: u128 = total as u128 * 10_000_000 / freq as u128;
    push_fixed4(&mut s, v);
    s.append(" ms (CPU freq ");
    push_u64(&mut s, freq);
    s.append(")");
    proof {
        assert(v as int == ms_e4(total as int, freq as int));
    }
    s
}

impl Profiler {
    /// One report line for the span at table position `k`.
    fn render_span_line(&self, k: usize, total: u64) -> (r: String)
        requires
            self.wf(),
            k < self@.entries.len(),
            total >= 1,
        ensures
            r@ == span_line_chars(self@.entries[k as int], total as int),
    {
        let id = &self.ids[k];
        let t = self.stats[k];
        let mut s = String::from_str("  ");
        let dn = id.display_name();
        s.append(dn.as_str());
        s.append("[");
        push_usize(&mut s, t.hit_count);
        s.append("]: ");
        if t.elapsed_exclusive >= 0 && (t.elapsed_exclusive as u64) == t.elapsed_inclusive {
            push_u64(&mut s, t.elapsed_inclusive);
            s.append(" (");
            push_percent(&mut s, t.elapsed_inclusive as i128, total);
            s.append("%)");
        } else {
            push_i64(&mut s, t.elapsed_exclusive);
            s.append(" (");
            push_percent(&mut s, t.elapsed_exclusive as i128, total);
            s.append("%, ");
            push_percent(&mut s, t.elapsed_inclusive as i128, total);
            s.append("% w/ children)");
        }
        proof {
            assert(s@ =~= span_line_chars(self@.entries[k as int], total as int));
        }
        s
    }

    /// Starts the profiler: calibrates the timer frequency and records the
    /// start cycle count, once. A second call changes nothing, so starting
    /// twice is harmless.
    pub fn begin_profile(&mut self)
        requires
            old(self).wf(),
        ensures
            final(self).wf(),
            final(self)@ == old(self)@,
            final(self).is_started(),
            final(self).freq() >= 1,
            old(self).is_started() ==> *final(self) == *old(self),
    {
        if !self.started {
            self.timer_freq = estimate_timer_freq(100);
            self.start_ts = read_cpu_timer();
            self.started = true;
        }
    }

    /// Starts the profiler with a caller-supplied frequency and start
    /// cycle count instead of reading the clock, once. A frequency of zero
    /// is lifted to one, since the report divides by it.
    pub fn begin_profile_with(&mut self, freq: u64, start: u64)
        requires
            old(self).wf(),
        ensures
            final(self).wf(),
            final(self)@ == old(self)@,
            final(self).is_started(),
            final(self).freq() >= 1,
            old(self).is_started() ==> *final(self) == *old(self),
            !old(self).is_started() ==> {
                &&& final(self).freq() == (if freq >= 1 {
                    freq as int
                } else {
                    1
                })
                &&& final(self).start_time() == start
            },
    {
        if !self.started {
            self.timer_freq = if freq >= 1 {
                freq
            } else {
                1
            };
            self.start_ts = start;
            self.started = true;
        }
    }

    /// Computes the report at end cycle count `end`: the total line, then
    /// one line per span in first-seen order. Requesting the report before
    /// the profiler started, or with an end count not after the start, is
    /// a usage error and yields no report.
    pub fn end_profile(&self, end: u64) -> (r: Result<Vec<String>, ProfileError>)
        requires
            self.wf(),
        ensures
            match r {
                Result::Ok(lines) => {
                    &&& self.is_started()
                    &&& end > self.start_time()
                    &&& lines.deep_view() == report_chars(
                        self@,
                        end - self.start_time(),
                        self.freq() as int,
                    )
                },
                Result::Err(e) => match e {
                    ProfileError::NotStarted => !self.is_started(),
                    ProfileError::EndNotAfterStart => self.is_started() && end
                        <= self.start_time(),
                },
            },
    {
        if !self.started {
            return Result::Err(ProfileError::NotStarted);
        }
        if end <= self.start_ts {
            return Result::Err(ProfileError::EndNotAfterStart);
        }
        let total: u64 = end - self.start_ts;
        let ghost t = total as int;
        let ghost f = self.timer_freq as int;
        let mut lines: Vec<String> = Vec::new();
        lines.push(render_header(total, self.timer_freq));
        let n = self.ids.len();
        let mut k: usize = 0;
        while k < n
            invariant
                self.wf(),
                total >= 1,
                self.timer_freq >= 1,
                t == total as int,
                f == self.timer_freq as int,
                n == self@.entries.len(),
                k <= n,
                lines@.len() == k + 1,
                lines@[0]@ == header_chars(t, f),
                forall|j: int|
                    0 <= j < k ==> (#[trigger] lines@[j + 1])@ == span_line_chars(
                        self@.entries[j],
                        t,
                    ),
            decreases n - k,
        {
            let line = self.render_span_line(k, total);
            lines.push(line);
            k += 1;
        }
        proof {
            let dv = lines.deep_view();
            assert(dv.len() == n + 1);
            assert(forall|i: int| 0 <= i < lines@.len() ==> #[trigger] dv[i] == lines@[i]@);
            assert(dv[0] == header_chars(t, f));
            assert forall|i: int| 1 <= i < n + 1 implies dv[i] == span_line_chars(
                self@.entries[i - 1],
                t,
            ) by {
                assert(lines@[(i - 1) + 1]@ == span_line_chars(self@.entries[i - 1], t));
            }
            assert(dv =~~= report_chars(self@, t, f));
        }
        Result::Ok(lines)
    }
}

/// A scoped-span token: the unit of measurement. Created by entering a
/// span, consumed by exiting it; carries everything the exit needs.
pub struct ScopedTrace {
    trace_id: TraceId,
    parent: Option<TraceId>,
    begin: u64,
    old_elapsed_inclusive: u64,
}

impl View for ScopedTrace {
    type V = TokenView;

    closed spec fn view(&self) -> TokenView {
        TokenView {
            id: self.trace_id@,
            parent: match self.parent {
                Option::Some(ref p) => Option::Some(p@),
                Option::None => Option::None,
            },
            begin: self.begin as int,
            old_incl: self.old_elapsed_inclusive as int,
        }
    }
}

impl ScopedTrace {
    /// The cycle count captured when this span was entered.
    pub fn begin(&self) -> (r: u64)
        ensures
            r as int == self@.begin,
    {
        self.begin
    }

    /// Opens a whole-function span for `fn_name` at cycle count `now`.
    pub fn new_fn(p: &mut Profiler, fn_name: &str, now: u64) -> (tok: ScopedTrace)
        requires
            old(p).wf(),
        ensures
            final(p).wf(),
            final(p)@ == enter_model(old(p)@, fn_id(fn_name@), now as int),
            tok@ == enter_token(old(p)@, fn_id(fn_name@), now as int),
            token_wf(final(p)@, tok@),
            forall|x: TraceIdView| has_id(old(p)@.entries, x) ==> has_id(final(p)@.entries, x),
            final(p).is_started() == old(p).is_started(),
            final(p).freq() == old(p).freq(),
            final(p).start_time() == old(p).start_time(),
    {
        let id = TraceId { enclosing_function_name: fn_name.to_owned(), ty: TraceType::Fn };
        p.enter_at(id, now)
    }

    /// Opens a span for the loop `loop_name` inside `fn_name` at cycle
    /// count `now`.
    pub fn new_loop(p: &mut Profiler, fn_name: &str, loop_name: &str, now: u64) -> (tok:
        ScopedTrace)
        requires
            old(p).wf(),
        ensures
            final(p).wf(),
            final(p)@ == enter_model(old(p)@, loop_id(fn_name@, loop_name@), now as int),
            tok@ == enter_token(old(p)@, loop_id(fn_name@, loop_name@), now as int),
            token_wf(final(p)@, tok@),
            forall|x: TraceIdView| has_id(old(p)@.entries, x) ==> has_id(final(p)@.entries, x),
            final(p).is_started() == old(p).is_started(),
            final(p).freq() == old(p).freq(),
            final(p).start_time() == old(p).start_time(),
    {
        let id = TraceId {
            enclosing_function_name: fn_name.to_owned(),
            ty: TraceType::Loop(loop_name.to_owned()),
        };
        p.enter_at(id, now)
    }

    /// Opens a span for the section `section_name` inside `fn_name` at
    /// cycle count `now`.
    pub fn new_section(p: &mut Profiler, fn_name: &str, section_name: &str, now: u64) -> (tok:
        ScopedTrace)
        requires
            old(p).wf(),
        ensures
            final(p).wf(),
            final(p)@ == enter_model(old(p)@, section_id(fn_name@, section_name@), now as int),
            tok@ == enter_token(old(p)@, section_id(fn_name@, section_name@), now as int),
            token_wf(final(p)@, tok@),
            forall|x: TraceIdView| has_id(old(p)@.entries, x) ==> has_id(final(p)@.entries, x),
            final(p).is_started() == old(p).is_started(),
            final(p).freq() == old(p).freq(),
            final(p).start_time() == old(p).start_time(),
    {
        let id = TraceId {
            enclosing_function_name: fn_name.to_owned(),
            ty: TraceType::Section(section_name.to_owned()),
        };
        p.enter_at(id, now)
    }

    /// Closes this span at cycle count `now`, updating the table of `p`.
    pub fn exit(self, p: &mut Profiler, now: u64)
        requires
            old(p).wf(),
            token_wf(old(p)@, self@),
            now as int >= self@.begin,
        ensures
            final(p).wf(),
            final(p)@ == exit_model(old(p)@, self@, now as int),
            forall|x: TraceIdView| has_id(old(p)@.entries, x) ==> has_id(final(p)@.entries, x),
            final(p).is_started() == old(p).is_started(),
            final(p).freq() == old(p).freq(),
            final(p).start_time() == old(p).start_time(),
    {
        p.exit_at(self, now)
    }
}

} // verus!
