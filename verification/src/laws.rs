//! Laws of the aggregation engine, proved over runs of the model.
//!
//! A run is a sequence of events: entering a span or exiting the most
//! recently opened span. Exiting the newest open span is exactly the
//! discipline a scope-bound guard enforces, so these runs are the
//! well-nested uses of the engine. Each law quantifies over all such runs,
//! restricted where stated to runs in which no counter saturates.

use vstd::prelude::*;

use crate::model::EntryView;
use crate::model::StateView;
use crate::model::TokenView;
use crate::model::empty_state;
use crate::model::enter_entries;
use crate::model::enter_model;
use crate::model::enter_token;
use crate::model::exit_entries;
use crate::model::exit_model;
use crate::model::exit_upd_own;
use crate::model::fresh_entry;
use crate::model::has_id;
use crate::model::idx_of;
use crate::model::lemma_enter_wf;
use crate::model::lemma_exit_wf;
use crate::model::lemma_idx_of;
use crate::model::state_wf;
use crate::model::token_wf;
use crate::trace::TraceId;
use crate::trace::TraceIdView;
use vstd::std_specs::cmp::PartialEqSpec;

verus! {

/// One step of a well-nested instrumented execution.
pub enum EventView {
    /// A span of the given identity is entered at the given cycle count.
    Enter(TraceIdView, int),
    /// The most recently opened span exits at the given cycle count.
    Exit(int),
}

/// The state of a run: the aggregation state, the stack of open spans'
/// tokens (newest last), and the cycle count of the latest event.
pub struct RunState {
    pub st: StateView,
    pub stack: Seq<TokenView>,
    pub last: int,
}

/// The run state before any event, at start cycle count `t0`.
pub open spec fn run_init(t0: int) -> RunState {
    RunState { st: empty_state(), stack: Seq::empty(), last: t0 }
}

/// The run state after one more event.
pub open spec fn run_step(r: RunState, e: EventView) -> RunState {
    match e {
        EventView::Enter(id, now) => RunState {
            st: enter_model(r.st, id, now),
            stack: r.stack.push(enter_token(r.st, id, now)),
            last: now,
        },
        EventView::Exit(now) => RunState {
            st: exit_model(r.st, r.stack.last(), now),
            stack: r.stack.drop_last(),
            last: now,
        },
    }
}

/// The run state after the whole event sequence.
pub open spec fn run(events: Seq<EventView>, t0: int) -> RunState
    decreases events.len(),
{
    if events.len() == 0 {
        run_init(t0)
    } else {
        run_step(run(events.drop_last(), t0), events.last())
    }
}

/// No counter saturates when token `tok` exits state `s` at cycle count
/// `now`: the four updated figures all fit their concrete types.
pub open spec fn no_sat_exit(s: StateView, tok: TokenView, now: int) -> bool {
    let d = now - tok.begin;
    let i = idx_of(s.entries, tok.id);
    let own = s.entries.update(i, exit_upd_own(s.entries[i], d, tok.old_incl));
    &&& s.entries[i].excl + d <= i64::MAX
    &&& tok.old_incl + d <= u64::MAX
    &&& s.entries[i].hits + 1 <= usize::MAX
    &&& match tok.parent {
        Option::Some(p) => own[idx_of(own, p)].excl - d >= i64::MIN,
        Option::None => true,
    }
}

/// The event is admissible in run state `r`: cycle counts fit `u64` and
/// never move backward, an exit has an open span to close, and no counter
/// saturates.
pub open spec fn step_ok(r: RunState, e: EventView) -> bool {
    match e {
        EventView::Enter(_, now) => r.last <= now <= u64::MAX,
        EventView::Exit(now) => {
            &&& r.stack.len() > 0
            &&& r.last <= now <= u64::MAX
            &&& no_sat_exit(r.st, r.stack.last(), now)
        },
    }
}

/// Every event of the sequence is admissible in the state it meets.
pub open spec fn run_ok(events: Seq<EventView>, t0: int) -> bool
    decreases events.len(),
{
    if events.len() == 0 {
        0 <= t0 <= u64::MAX
    } else {
        run_ok(events.drop_last(), t0) && step_ok(run(events.drop_last(), t0), events.last())
    }
}

/// Whether some open span on the stack has identity `id`.
pub open spec fn stack_has(stack: Seq<TokenView>, id: TraceIdView) -> bool {
    exists|i: int| 0 <= i < stack.len() && stack[i].id == id
}

/// The structural invariant of every admissible run: the state is well
/// formed, every open token is acceptable to it, the active span is the
/// newest open one, each open token's saved parent is the span below it,
/// and cycle counts sit between `t0` and the latest event.
pub open spec fn run_inv(r: RunState, t0: int) -> bool {
    &&& state_wf(r.st)
    &&& forall|i: int| 0 <= i < r.stack.len() ==> token_wf(r.st, #[trigger] r.stack[i])
    &&& (r.stack.len() == 0 ==> r.st.current == Option::<TraceIdView>::None)
    &&& (r.stack.len() > 0 ==> r.st.current == Option::Some(r.stack.last().id))
    &&& (r.stack.len() > 0 ==> r.stack[0].parent == Option::<TraceIdView>::None)
    &&& forall|i: int|
        0 < i < r.stack.len() ==> (#[trigger] r.stack[i]).parent == Option::Some(
            r.stack[i - 1].id,
        )
    &&& forall|i: int| 0 <= i < r.stack.len() ==> (#[trigger] r.stack[i]).begin <= r.last
    &&& 0 <= t0 <= r.last <= u64::MAX
}

/// An admissible step preserves the structural invariant.
pub proof fn lemma_step_inv(r: RunState, e: EventView, t0: int)
    requires
        run_inv(r, t0),
        step_ok(r, e),
    ensures
        run_inv(run_step(r, e), t0),
{
    let r2 = run_step(r, e);
    match e {
        EventView::Enter(id, now) => {
            lemma_enter_wf(r.st, id, now);
            assert(forall|k: int|
                0 <= k < r.st.entries.len() ==> (#[trigger] r2.st.entries[k]).id
                    == r.st.entries[k].id);
            assert(forall|i: int| 0 <= i < r.stack.len() ==> r2.stack[i] == #[trigger] r.stack[i]);
            assert forall|i: int| 0 <= i < r2.stack.len() implies token_wf(
                r2.st,
                #[trigger] r2.stack[i],
            ) by {
                if i < r.stack.len() {
                    assert(token_wf(r.st, r.stack[i]));
                    assert(has_id(r2.st.entries, r.stack[i].id)) by {
                        lemma_idx_of(r.st.entries, r.stack[i].id);
                        let k = idx_of(r.st.entries, r.stack[i].id);
                        assert(r2.st.entries[k].id == r.stack[i].id);
                    }
                    match r.stack[i].parent {
                        Option::Some(p) => {
                            lemma_idx_of(r.st.entries, p);
                            let k = idx_of(r.st.entries, p);
                            assert(r2.st.entries[k].id == p);
                        },
                        Option::None => {},
                    }
                } else {
                    assert(r2.stack[i] == enter_token(r.st, id, now));
                    assert(has_id(r2.st.entries, id));
                    match r.st.current {
                        Option::Some(c) => {
                            lemma_idx_of(r.st.entries, c);
                            let k = idx_of(r.st.entries, c);
                            assert(r2.st.entries[k].id == c);
                        },
                        Option::None => {},
                    }
                    assert(0 <= crate::model::incl_before(r.st.entries, id)) by {
                        if has_id(r.st.entries, id) {
                            lemma_idx_of(r.st.entries, id);
                        }
                    }
                }
            }
        },
        EventView::Exit(now) => {
            let tok = r.stack.last();
            assert(token_wf(r.st, tok));
            assert(now >= tok.begin);
            lemma_exit_wf(r.st, tok, now);
            assert(forall|i: int|
                0 <= i < r2.stack.len() ==> r2.stack[i] == #[trigger] r.stack[i]);
            assert forall|i: int| 0 <= i < r2.stack.len() implies token_wf(
                r2.st,
                #[trigger] r2.stack[i],
            ) by {
                assert(token_wf(r.st, r.stack[i]));
                assert(has_id(r2.st.entries, r.stack[i].id)) by {
                    lemma_idx_of(r.st.entries, r.stack[i].id);
                    let k = idx_of(r.st.entries, r.stack[i].id);
                    assert(r2.st.entries[k].id == r.stack[i].id);
                }
                match r.stack[i].parent {
                    Option::Some(p) => {
                        lemma_idx_of(r.st.entries, p);
                        let k = idx_of(r.st.entries, p);
                        assert(r2.st.entries[k].id == p);
                    },
                    Option::None => {},
                }
            }
            if r2.stack.len() > 0 {
                assert(r.stack[r.stack.len() - 1].parent == Option::Some(
                    r.stack[r.stack.len() - 2].id,
                ));
                assert(r2.stack.last() == r.stack[r.stack.len() - 2]);
            }
        },
    }
}

/// Every admissible run satisfies the structural invariant.
pub proof fn lemma_run_inv(events: Seq<EventView>, t0: int)
    requires
        run_ok(events, t0),
    ensures
        run_inv(run(events, t0), t0),
    decreases events.len(),
{
    if events.len() == 0 {
        assert(run(events, t0) == run_init(t0));
    } else {
        lemma_run_inv(events.drop_last(), t0);
        lemma_step_inv(run(events.drop_last(), t0), events.last(), t0);
    }
}

/// The exclusive times summed over all rows.
pub open spec fn sum_excl(entries: Seq<EntryView>) -> int
    decreases entries.len(),
{
    if entries.len() == 0 {
        0
    } else {
        sum_excl(entries.drop_last()) + entries.last().excl
    }
}

/// Appending a row adds its exclusive time to the sum.
pub proof fn lemma_sum_push(entries: Seq<EntryView>, e: EntryView)
    ensures
        sum_excl(entries.push(e)) == sum_excl(entries) + e.excl,
{
    assert(entries.push(e).drop_last() =~= entries);
    assert(entries.push(e).last() == e);
}

/// Replacing a row shifts the sum by the difference of exclusive times.
pub proof fn lemma_sum_update(entries: Seq<EntryView>, i: int, e: EntryView)
    requires
        0 <= i < entries.len(),
    ensures
        sum_excl(entries.update(i, e)) == sum_excl(entries) - entries[i].excl + e.excl,
    decreases entries.len(),
{
    if i == entries.len() - 1 {
        assert(entries.update(i, e).drop_last() =~= entries.drop_last());
        assert(entries.update(i, e).last() == e);
    } else {
        lemma_sum_update(entries.drop_last(), i, e);
        assert(entries.update(i, e).drop_last() =~= entries.drop_last().update(i, e));
        assert(entries.update(i, e).last() == entries.last());
    }
}

/// Entering a span never changes the sum of exclusive times.
pub proof fn lemma_enter_sum(entries: Seq<EntryView>, id: TraceIdView)
    ensures
        sum_excl(enter_entries(entries, id)) == sum_excl(entries),
{
    if !has_id(entries, id) {
        lemma_sum_push(entries, fresh_entry(id, entries.len() as int));
    }
}

/// An exit without saturation moves the sum by the span's duration when
/// the span has no parent, and not at all when it has one: the addition to
/// the span and the subtraction from the parent cancel.
pub proof fn lemma_exit_sum(s: StateView, tok: TokenView, now: int)
    requires
        state_wf(s),
        token_wf(s, tok),
        now >= tok.begin,
        no_sat_exit(s, tok, now),
    ensures
        sum_excl(exit_entries(s.entries, tok, now)) == sum_excl(s.entries) + (match tok.parent {
            Option::Some(_) => 0,
            Option::None => now - tok.begin,
        }),
{
    let d = now - tok.begin;
    lemma_idx_of(s.entries, tok.id);
    let i = idx_of(s.entries, tok.id);
    let own_e = exit_upd_own(s.entries[i], d, tok.old_incl);
    let own = s.entries.update(i, own_e);
    assert(own_e.excl == s.entries[i].excl + d);
    lemma_sum_update(s.entries, i, own_e);
    match tok.parent {
        Option::Some(p) => {
            assert(forall|k: int|
                0 <= k < own.len() ==> (#[trigger] own[k]).id == s.entries[k].id);
            assert(has_id(own, p)) by {
                lemma_idx_of(s.entries, p);
                let k = idx_of(s.entries, p);
                assert(own[k].id == p);
            }
            lemma_idx_of(own, p);
            let j = idx_of(own, p);
            let par_e = EntryView {
                id: own[j].id,
                excl: crate::model::sat_signed(own[j].excl - d),
                incl: own[j].incl,
                hits: own[j].hits,
                order: own[j].order,
            };
            assert(par_e.excl == own[j].excl - d);
            lemma_sum_update(own, j, par_e);
            assert(exit_entries(s.entries, tok, now) == own.update(j, par_e));
        },
        Option::None => {},
    }
}

/// A span opens only at the very cycle count the measured window has
/// reached: with no open span, a new one must begin exactly at the latest
/// event's time, so no time falls outside every span.
pub open spec fn gapless_step(r: RunState, e: EventView) -> bool {
    match e {
        EventView::Enter(_, now) => r.stack.len() > 0 || now == r.last,
        EventView::Exit(_) => true,
    }
}

/// The whole run is gapless.
pub open spec fn gapless(events: Seq<EventView>, t0: int) -> bool
    decreases events.len(),
{
    if events.len() == 0 {
        true
    } else {
        gapless(events.drop_last(), t0) && gapless_step(
            run(events.drop_last(), t0),
            events.last(),
        )
    }
}

/// The accounting invariant behind the partition law: with no span open
/// the exclusive times sum to the window covered so far; with spans open
/// they sum to the window covered up to the bottom-most open span's entry.
pub open spec fn partition_inv(r: RunState, t0: int) -> bool {
    if r.stack.len() == 0 {
        sum_excl(r.st.entries) == r.last - t0
    } else {
        sum_excl(r.st.entries) == r.stack[0].begin - t0
    }
}

/// The accounting invariant holds along every admissible gapless run.
pub proof fn lemma_partition_inv(events: Seq<EventView>, t0: int)
    requires
        run_ok(events, t0),
        gapless(events, t0),
    ensures
        partition_inv(run(events, t0), t0),
    decreases events.len(),
{
    if events.len() == 0 {
    } else {
        let prefix = events.drop_last();
        let r = run(prefix, t0);
        let r2 = run(events, t0);
        lemma_partition_inv(prefix, t0);
        lemma_run_inv(prefix, t0);
        match events.last() {
            EventView::Enter(id, now) => {
                lemma_enter_sum(r.st.entries, id);
                if r.stack.len() == 0 {
                    assert(now == r.last);
                    assert(r2.stack[0] == enter_token(r.st, id, now));
                } else {
                    assert(r2.stack[0] == r.stack[0]);
                }
            },
            EventView::Exit(now) => {
                let tok = r.stack.last();
                lemma_exit_sum(r.st, tok, now);
                if r.stack.len() == 1 {
                    assert(tok.parent == Option::<TraceIdView>::None);
                    assert(tok == r.stack[0]);
                } else {
                    assert(tok.parent == Option::Some(r.stack[r.stack.len() - 2].id));
                    assert(r2.stack[0] == r.stack[0]);
                }
            },
        }
    }
}

/// The cycles the open invocations of span `id` will still reclaim at
/// their exits: for each open token carrying `id`, the window from its
/// entry up to the entry of the span opened directly above it, or up to
/// `bound` for the newest open span.
pub open spec fn excl_credit(stack: Seq<TokenView>, bound: int, id: TraceIdView) -> int
    decreases stack.len(),
{
    if stack.len() == 0 {
        0
    } else {
        (if stack.last().id == id {
            bound - stack.last().begin
        } else {
            0int
        }) + excl_credit(stack.drop_last(), stack.last().begin, id)
    }
}

/// Moving the bound shifts the credit exactly when the newest open span
/// carries `id`; the rest of the credit does not depend on the bound.
pub proof fn lemma_credit_shift(stack: Seq<TokenView>, b1: int, b2: int, id: TraceIdView)
    ensures
        excl_credit(stack, b2, id) - excl_credit(stack, b1, id) == (if stack.len() > 0
            && stack.last().id == id {
            b2 - b1
        } else {
            0int
        }),
{
}

/// A span with no open invocation has no credit.
pub proof fn lemma_credit_absent(stack: Seq<TokenView>, bound: int, id: TraceIdView)
    requires
        !stack_has(stack, id),
    ensures
        excl_credit(stack, bound, id) == 0,
    decreases stack.len(),
{
    if stack.len() > 0 {
        assert(stack[stack.len() - 1].id != id);
        assert(!stack_has(stack.drop_last(), id)) by {
            if stack_has(stack.drop_last(), id) {
                let k = choose|k: int|
                    0 <= k < stack.drop_last().len() && stack.drop_last()[k].id == id;
                assert(stack[k].id == id);
            }
        }
        lemma_credit_absent(stack.drop_last(), stack.last().begin, id);
    }
}

/// Each row's exclusive total plus the credit of its open invocations is
/// nonnegative: what a child exit subtracts from its parent, the parent's
/// own pending exit still covers.
pub open spec fn nonneg_inv(r: RunState) -> bool {
    forall|x: TraceIdView|
        #[trigger] has_id(r.st.entries, x) ==> r.st.entries[idx_of(r.st.entries, x)].excl
            + excl_credit(r.stack, r.last, x) >= 0
}

/// The nonnegativity invariant holds along every admissible run.
#[verifier::rlimit(60)]
pub proof fn lemma_nonneg_inv(events: Seq<EventView>, t0: int)
    requires
        run_ok(events, t0),
    ensures
        nonneg_inv(run(events, t0)),
    decreases events.len(),
{
    if events.len() == 0 {
    } else {
        let prefix = events.drop_last();
        let r = run(prefix, t0);
        let r2 = run(events, t0);
        lemma_nonneg_inv(prefix, t0);
        lemma_run_inv(prefix, t0);
        match events.last() {
            EventView::Enter(id2, now) => {
                lemma_enter_wf(r.st, id2, now);
                let tok = enter_token(r.st, id2, now);
                assert(r2.stack.drop_last() =~= r.stack);
                assert(r2.stack.last() == tok);
                assert forall|x: TraceIdView| #[trigger] has_id(r2.st.entries, x) implies r2.st
                    .entries[idx_of(r2.st.entries, x)].excl + excl_credit(r2.stack, r2.last, x)
                    >= 0 by {
                    assert(excl_credit(r2.stack, now, x) == (if tok.id == x {
                        now - now
                    } else {
                        0int
                    }) + excl_credit(r.stack, now, x));
                    lemma_credit_shift(r.stack, r.last, now, x);
                    if has_id(r.st.entries, x) {
                        lemma_idx_of(r.st.entries, x);
                        let k = idx_of(r.st.entries, x);
                        if has_id(r.st.entries, id2) {
                            assert(r2.st.entries == r.st.entries);
                        } else {
                            assert(forall|m: int|
                                0 <= m < r.st.entries.len() ==> r2.st.entries[m] == #[trigger] r.st
                                    .entries[m]);
                        }
                        assert(r2.st.entries[k] == r.st.entries[k]);
                        lemma_idx_of(r2.st.entries, x);
                        assert(idx_of(r2.st.entries, x) == k);
                    } else {
                        // only the freshly seen span can be new, with zero
                        // exclusive time and no other open invocation
                        assert(x == id2) by {
                            if x != id2 {
                                let k = choose|k: int|
                                    0 <= k < r2.st.entries.len() && r2.st.entries[k].id == x;
                                assert(forall|m: int|
                                    0 <= m < r.st.entries.len() ==> (#[trigger] r2.st
                                        .entries[m]).id == r.st.entries[m].id);
                                assert(k != r.st.entries.len());
                                assert(r.st.entries[k].id == x);
                            }
                        }
                        let n = r.st.entries.len() as int;
                        assert(r2.st.entries[n] == fresh_entry(id2, n));
                        lemma_idx_of(r2.st.entries, x);
                        assert(idx_of(r2.st.entries, x) == n);
                        assert(!stack_has(r.stack, id2)) by {
                            if stack_has(r.stack, id2) {
                                let k = choose|k: int|
                                    0 <= k < r.stack.len() && r.stack[k].id == id2;
                                assert(token_wf(r.st, r.stack[k]));
                            }
                        }
                        lemma_credit_absent(r.stack, now, x);
                    }
                }
            },
            EventView::Exit(now) => {
                let tok = r.stack.last();
                assert(token_wf(r.st, tok));
                lemma_idx_of(r.st.entries, tok.id);
                lemma_exit_wf(r.st, tok, now);
                let d = now - tok.begin;
                let i = idx_of(r.st.entries, tok.id);
                let own = r.st.entries.update(
                    i,
                    exit_upd_own(r.st.entries[i], d, tok.old_incl),
                );
                assert(forall|k: int|
                    0 <= k < own.len() ==> (#[trigger] own[k]).id == r.st.entries[k].id);
                assert(crate::model::distinct_ids(own));
                assert(forall|k: int|
                    0 <= k < r2.st.entries.len() ==> (#[trigger] r2.st.entries[k]).id
                        == r.st.entries[k].id);
                match tok.parent {
                    Option::Some(p) => {
                        assert(has_id(own, p)) by {
                            lemma_idx_of(r.st.entries, p);
                            let kp = idx_of(r.st.entries, p);
                            assert(own[kp].id == p);
                        }
                        lemma_idx_of(own, p);
                    },
                    Option::None => {},
                }
                assert forall|x: TraceIdView| #[trigger] has_id(r2.st.entries, x) implies r2.st
                    .entries[idx_of(r2.st.entries, x)].excl + excl_credit(r2.stack, r2.last, x)
                    >= 0 by {
                    assert(has_id(r.st.entries, x)) by {
                        let k = choose|k: int|
                            0 <= k < r2.st.entries.len() && r2.st.entries[k].id == x;
                        assert(r.st.entries[k].id == x);
                    }
                    lemma_idx_of(r.st.entries, x);
                    let k = idx_of(r.st.entries, x);
                    lemma_idx_of(r2.st.entries, x);
                    assert(idx_of(r2.st.entries, x) == k);
                    // the row's new exclusive total, exactly
                    let own_gain: int = if k == i {
                        d
                    } else {
                        0int
                    };
                    let par_loss: int = match tok.parent {
                        Option::Some(p) => if k == idx_of(own, p) {
                            d
                        } else {
                            0int
                        },
                        Option::None => 0int,
                    };
                    assert(r2.st.entries[k].excl == r.st.entries[k].excl + own_gain - par_loss);
                    // the row's new credit, exactly
                    assert(excl_credit(r.stack, r.last, x) == (if tok.id == x {
                        r.last - tok.begin
                    } else {
                        0int
                    }) + excl_credit(r2.stack, tok.begin, x));
                    lemma_credit_shift(r2.stack, tok.begin, now, x);
                    // the credit regained at the bound is exactly the
                    // parent's loss: the saved parent is the span below
                    if r.stack.len() >= 2 {
                        assert(tok.parent == Option::Some(r.stack[r.stack.len() - 2].id));
                        assert(r2.stack.last() == r.stack[r.stack.len() - 2]);
                    }
                    assert((match tok.parent {
                        Option::Some(p) => p == x,
                        Option::None => false,
                    }) == (r2.stack.len() > 0 && r2.stack.last().id == x));
                    assert(own_gain == (if tok.id == x {
                        d
                    } else {
                        0int
                    }));
                    assert(par_loss == (if r2.stack.len() > 0 && r2.stack.last().id == x {
                        d
                    } else {
                        0int
                    }));
                }
            },
        }
    }
}

/// LAW: for every admissible, gapless, well-nested run that fully
/// unwinds, the exclusive times summed over all spans equal exactly the
/// elapsed cycles of the measured window, from the first entry at `t0` to
/// the last exit; and no span's exclusive total is negative (a fully
/// unwound tree never holds a negative exclusive time).
pub proof fn law_exclusive_times_partition_window(events: Seq<EventView>, t0: int)
    requires
        run_ok(events, t0),
        gapless(events, t0),
        run(events, t0).stack.len() == 0,
    ensures
        sum_excl(run(events, t0).st.entries) == run(events, t0).last - t0,
        forall|k: int|
            0 <= k < run(events, t0).st.entries.len() ==> (#[trigger] run(
                events,
                t0,
            ).st.entries[k]).excl >= 0,
{
    lemma_partition_inv(events, t0);
    lemma_nonneg_inv(events, t0);
    lemma_run_inv(events, t0);
    let fin = run(events, t0);
    assert forall|k: int| 0 <= k < fin.st.entries.len() implies (#[trigger] fin.st
        .entries[k]).excl >= 0 by {
        let x = fin.st.entries[k].id;
        assert(has_id(fin.st.entries, x));
        lemma_idx_of(fin.st.entries, x);
        assert(idx_of(fin.st.entries, x) == k);
        assert(excl_credit(fin.stack, fin.last, x) == 0);
    }
}

/// The number of exits of span `id` over the run: an exit event counts
/// when the span it closes (the newest open one) carries `id`.
pub open spec fn exit_count(events: Seq<EventView>, t0: int, id: TraceIdView) -> int
    decreases events.len(),
{
    if events.len() == 0 {
        0
    } else {
        exit_count(events.drop_last(), t0, id) + (match events.last() {
            EventView::Exit(_) => {
                let r = run(events.drop_last(), t0);
                if r.stack.len() > 0 && r.stack.last().id == id {
                    1int
                } else {
                    0int
                }
            },
            EventView::Enter(_, _) => 0,
        })
    }
}

/// The hit count of every seen span equals its number of exits so far;
/// an unseen span has no exits.
pub proof fn lemma_hit_count_inv(events: Seq<EventView>, t0: int, id: TraceIdView)
    requires
        run_ok(events, t0),
    ensures
        has_id(run(events, t0).st.entries, id) ==> run(events, t0).st.entries[idx_of(
            run(events, t0).st.entries,
            id,
        )].hits == exit_count(events, t0, id),
        !has_id(run(events, t0).st.entries, id) ==> exit_count(events, t0, id) == 0,
    decreases events.len(),
{
    if events.len() == 0 {
    } else {
        let prefix = events.drop_last();
        let r = run(prefix, t0);
        let r2 = run(events, t0);
        lemma_hit_count_inv(prefix, t0, id);
        lemma_run_inv(prefix, t0);
        match events.last() {
            EventView::Enter(id2, now) => {
                lemma_enter_wf(r.st, id2, now);
                if has_id(r.st.entries, id2) {
                    assert(r2.st.entries == r.st.entries);
                } else {
                    let n = r.st.entries.len() as int;
                    assert(forall|k: int|
                        0 <= k < n ==> r2.st.entries[k] == #[trigger] r.st.entries[k]);
                    assert(r2.st.entries[n] == fresh_entry(id2, n));
                    if id == id2 {
                        lemma_idx_of(r2.st.entries, id);
                        assert(r2.st.entries[n].id == id);
                        assert(idx_of(r2.st.entries, id) == n);
                    } else {
                        if has_id(r.st.entries, id) {
                            lemma_idx_of(r.st.entries, id);
                            let k = idx_of(r.st.entries, id);
                            assert(r2.st.entries[k].id == id);
                            lemma_idx_of(r2.st.entries, id);
                            assert(idx_of(r2.st.entries, id) == k);
                        } else {
                            assert(!has_id(r2.st.entries, id)) by {
                                if has_id(r2.st.entries, id) {
                                    let k = choose|k: int|
                                        0 <= k < r2.st.entries.len() && r2.st.entries[k].id == id;
                                    assert(k != n);
                                    assert(r.st.entries[k].id == id);
                                }
                            }
                        }
                    }
                }
            },
            EventView::Exit(now) => {
                let tok = r.stack.last();
                assert(token_wf(r.st, tok));
                lemma_idx_of(r.st.entries, tok.id);
                lemma_exit_wf(r.st, tok, now);
                let d = now - tok.begin;
                let i = idx_of(r.st.entries, tok.id);
                let own = r.st.entries.update(
                    i,
                    exit_upd_own(r.st.entries[i], d, tok.old_incl),
                );
                assert(forall|k: int|
                    0 <= k < r2.st.entries.len() ==> (#[trigger] r2.st.entries[k]).id
                        == r.st.entries[k].id);
                assert(forall|k: int|
                    0 <= k < r2.st.entries.len() ==> (#[trigger] r2.st.entries[k]).hits == (
                    if k == i {
                        crate::model::sat_count(r.st.entries[i].hits + 1)
                    } else {
                        r.st.entries[k].hits
                    })) by {
                    match tok.parent {
                        Option::Some(p) => {
                            assert(forall|k: int|
                                0 <= k < own.len() ==> (#[trigger] own[k]).id
                                    == r.st.entries[k].id);
                            assert(crate::model::distinct_ids(own));
                            assert(has_id(own, p)) by {
                                lemma_idx_of(r.st.entries, p);
                                let kp = idx_of(r.st.entries, p);
                                assert(own[kp].id == p);
                            }
                            lemma_idx_of(own, p);
                        },
                        Option::None => {},
                    }
                }
                if has_id(r.st.entries, id) {
                    lemma_idx_of(r.st.entries, id);
                    let k = idx_of(r.st.entries, id);
                    assert(r2.st.entries[k].id == id);
                    lemma_idx_of(r2.st.entries, id);
                    assert(idx_of(r2.st.entries, id) == k);
                    if id == tok.id {
                        assert(k == i);
                        assert(r.st.entries[i].hits + 1 <= usize::MAX);
                    } else {
                        assert(k != i);
                    }
                } else {
                    assert(!has_id(r2.st.entries, id)) by {
                        if has_id(r2.st.entries, id) {
                            let k = choose|k: int|
                                0 <= k < r2.st.entries.len() && r2.st.entries[k].id == id;
                            assert(r.st.entries[k].id == id);
                        }
                    }
                    assert(id != tok.id);
                }
            },
        }
    }
}

/// LAW: the hit count of a span equals the exact number of completed
/// enter/exit pairs for its identity, regardless of nesting depth or
/// interleaving with sibling spans.
pub proof fn law_hit_count(events: Seq<EventView>, t0: int, id: TraceIdView)
    requires
        run_ok(events, t0),
        has_id(run(events, t0).st.entries, id),
    ensures
        run(events, t0).st.entries[idx_of(run(events, t0).st.entries, id)].hits == exit_count(
            events,
            t0,
            id,
        ),
{
    lemma_hit_count_inv(events, t0, id);
}

/// The row identities in table order.
pub open spec fn ids_of(entries: Seq<EntryView>) -> Seq<TraceIdView> {
    Seq::new(entries.len(), |i: int| entries[i].id)
}

/// The distinct identities of the run in order of first entry.
pub open spec fn first_seen(events: Seq<EventView>) -> Seq<TraceIdView>
    decreases events.len(),
{
    if events.len() == 0 {
        Seq::empty()
    } else {
        let pre = first_seen(events.drop_last());
        match events.last() {
            EventView::Enter(id, _) => if pre.contains(id) {
                pre
            } else {
                pre.push(id)
            },
            EventView::Exit(_) => pre,
        }
    }
}

/// The table's identities are exactly the identities first seen, in order.
pub proof fn lemma_first_seen(events: Seq<EventView>, t0: int)
    requires
        run_ok(events, t0),
    ensures
        ids_of(run(events, t0).st.entries) == first_seen(events),
    decreases events.len(),
{
    if events.len() == 0 {
        assert(ids_of(run(events, t0).st.entries) =~= first_seen(events));
    } else {
        let prefix = events.drop_last();
        let r = run(prefix, t0);
        let r2 = run(events, t0);
        lemma_first_seen(prefix, t0);
        lemma_run_inv(prefix, t0);
        match events.last() {
            EventView::Enter(id, now) => {
                assert(first_seen(prefix).contains(id) == has_id(r.st.entries, id)) by {
                    if has_id(r.st.entries, id) {
                        let k = idx_of(r.st.entries, id);
                        lemma_idx_of(r.st.entries, id);
                        assert(ids_of(r.st.entries)[k] == id);
                        assert(first_seen(prefix).contains(id));
                    }
                    if first_seen(prefix).contains(id) {
                        let k = choose|k: int|
                            0 <= k < first_seen(prefix).len() && first_seen(prefix)[k] == id;
                        assert(ids_of(r.st.entries)[k] == id);
                        assert(r.st.entries[k].id == id);
                    }
                }
                if has_id(r.st.entries, id) {
                    assert(r2.st.entries == r.st.entries);
                } else {
                    assert(ids_of(r2.st.entries) =~= ids_of(r.st.entries).push(id));
                }
            },
            EventView::Exit(now) => {
                let tok = r.stack.last();
                assert(token_wf(r.st, tok));
                lemma_exit_wf(r.st, tok, now);
                assert(ids_of(r2.st.entries) =~= ids_of(r.st.entries));
            },
        }
    }
}

/// LAW: `order` values are assigned in strict first-seen sequence. The
/// table's rows stand in order of first entry (the first never-before-seen
/// identity has the smallest order), each row's order is its position, and
/// re-entering an existing identity never changes its order.
pub proof fn law_first_seen_order(events: Seq<EventView>, t0: int)
    requires
        run_ok(events, t0),
    ensures
        ids_of(run(events, t0).st.entries) == first_seen(events),
        forall|i: int|
            0 <= i < run(events, t0).st.entries.len() ==> (#[trigger] run(
                events,
                t0,
            ).st.entries[i]).order == i,
{
    lemma_first_seen(events, t0);
    lemma_run_inv(events, t0);
}

/// The event keeps `id` a pure leaf: no span (not even `id` itself) is
/// entered while `id` is open, so `id` never observes a nested child and
/// is never re-entered before it exits.
pub open spec fn leaf_step(r: RunState, e: EventView, id: TraceIdView) -> bool {
    match e {
        EventView::Enter(id2, _) => (id2 == id ==> !stack_has(r.stack, id)) && (r.stack.len() > 0
            ==> r.stack.last().id != id),
        EventView::Exit(_) => true,
    }
}

/// Span `id` stays a pure leaf through the whole run.
pub open spec fn leaf_in_run(events: Seq<EventView>, t0: int, id: TraceIdView) -> bool
    decreases events.len(),
{
    if events.len() == 0 {
        true
    } else {
        leaf_in_run(events.drop_last(), t0, id) && leaf_step(
            run(events.drop_last(), t0),
            events.last(),
            id,
        )
    }
}

/// The leaf invariant: while `id` is open it is the newest open span and
/// its token's snapshot equals its row's inclusive total; whenever its row
/// exists, its exclusive and inclusive totals agree and are nonnegative.
pub open spec fn leaf_inv(r: RunState, id: TraceIdView) -> bool {
    &&& (stack_has(r.stack, id) ==> {
        &&& r.stack.len() > 0
        &&& r.stack.last().id == id
        &&& forall|i: int| 0 <= i < r.stack.len() - 1 ==> (#[trigger] r.stack[i]).id != id
        &&& has_id(r.st.entries, id)
        &&& r.stack.last().old_incl == r.st.entries[idx_of(r.st.entries, id)].incl
    })
    &&& (has_id(r.st.entries, id) ==> {
        let e = r.st.entries[idx_of(r.st.entries, id)];
        e.excl == e.incl && e.excl >= 0
    })
}

/// The leaf invariant holds along every admissible run that keeps `id` a
/// pure leaf.
#[verifier::rlimit(60)]
pub proof fn lemma_leaf_inv(events: Seq<EventView>, t0: int, id: TraceIdView)
    requires
        run_ok(events, t0),
        leaf_in_run(events, t0, id),
    ensures
        leaf_inv(run(events, t0), id),
    decreases events.len(),
{
    if events.len() == 0 {
    } else {
        let prefix = events.drop_last();
        let r = run(prefix, t0);
        let r2 = run(events, t0);
        lemma_leaf_inv(prefix, t0, id);
        lemma_run_inv(prefix, t0);
        match events.last() {
            EventView::Enter(id2, now) => {
                lemma_enter_wf(r.st, id2, now);
                if has_id(r.st.entries, id2) {
                    assert(r2.st.entries == r.st.entries);
                } else {
                    assert(forall|k: int|
                        0 <= k < r.st.entries.len() ==> r2.st.entries[k] == #[trigger] r.st
                            .entries[k]);
                }
                if id2 == id {
                    assert(!stack_has(r.stack, id));
                    assert(r2.stack.last() == enter_token(r.st, id, now));
                    assert(forall|i: int|
                        0 <= i < r2.stack.len() - 1 ==> (#[trigger] r2.stack[i]).id != id) by {
                        assert(forall|i: int|
                            0 <= i < r.stack.len() ==> (#[trigger] r.stack[i]).id != id);
                    }
                    lemma_idx_of(r2.st.entries, id);
                    if has_id(r.st.entries, id) {
                        lemma_idx_of(r.st.entries, id);
                        assert(idx_of(r2.st.entries, id) == idx_of(r.st.entries, id));
                    } else {
                        let n = r.st.entries.len() as int;
                        assert(r2.st.entries[n] == fresh_entry(id, n));
                        assert(idx_of(r2.st.entries, id) == n);
                    }
                } else {
                    assert(!stack_has(r.stack, id)) by {
                        if stack_has(r.stack, id) {
                            assert(r.stack.last().id == id);
                        }
                    }
                    assert(!stack_has(r2.stack, id)) by {
                        if stack_has(r2.stack, id) {
                            let k = choose|k: int|
                                0 <= k < r2.stack.len() && r2.stack[k].id == id;
                            assert(k < r.stack.len() ==> r.stack[k].id == id);
                        }
                    }
                    if has_id(r.st.entries, id) {
                        lemma_idx_of(r.st.entries, id);
                        let k = idx_of(r.st.entries, id);
                        assert(r2.st.entries[k].id == id);
                        lemma_idx_of(r2.st.entries, id);
                        assert(idx_of(r2.st.entries, id) == k);
                        assert(r2.st.entries[k] == r.st.entries[k]);
                    } else {
                        assert(!has_id(r2.st.entries, id)) by {
                            if has_id(r2.st.entries, id) {
                                let k = choose|k: int|
                                    0 <= k < r2.st.entries.len() && r2.st.entries[k].id == id;
                                assert(k != r.st.entries.len());
                                assert(r.st.entries[k].id == id);
                            }
                        }
                    }
                }
            },
            EventView::Exit(now) => {
                let tok = r.stack.last();
                assert(token_wf(r.st, tok));
                lemma_idx_of(r.st.entries, tok.id);
                lemma_exit_wf(r.st, tok, now);
                let d = now - tok.begin;
                let i = idx_of(r.st.entries, tok.id);
                let own = r.st.entries.update(
                    i,
                    exit_upd_own(r.st.entries[i], d, tok.old_incl),
                );
                assert(forall|k: int|
                    0 <= k < own.len() ==> (#[trigger] own[k]).id == r.st.entries[k].id);
                assert(crate::model::distinct_ids(own));
                assert(!stack_has(r2.stack, id)) by {
                    if stack_has(r2.stack, id) {
                        let k = choose|k: int| 0 <= k < r2.stack.len() && r2.stack[k].id == id;
                        assert(r.stack[k].id == id);
                        assert(stack_has(r.stack, id));
                        assert(r.stack.last().id == id);
                        assert(k < r.stack.len() - 1);
                        assert(r.stack[k].id != id);
                    }
                }
                if tok.id == id {
                    assert(stack_has(r.stack, id)) by {
                        assert(r.stack[r.stack.len() - 1].id == id);
                    }
                    assert(tok.old_incl == r.st.entries[i].incl);
                    assert(r.st.entries[i].excl == r.st.entries[i].incl);
                    assert(d >= 0);
                    match tok.parent {
                        Option::Some(p) => {
                            assert(p != id) by {
                                if r.stack.len() >= 2 {
                                    assert(tok.parent == Option::Some(
                                        r.stack[r.stack.len() - 2].id,
                                    ));
                                    assert(r.stack[r.stack.len() - 2].id != id);
                                }
                            }
                            assert(has_id(own, p)) by {
                                lemma_idx_of(r.st.entries, p);
                                let kp = idx_of(r.st.entries, p);
                                assert(own[kp].id == p);
                            }
                            lemma_idx_of(own, p);
                            let j = idx_of(own, p);
                            assert(j != i);
                            assert(has_id(r2.st.entries, id)) by {
                                assert(r2.st.entries[i].id == r.st.entries[i].id);
                            }
                            lemma_idx_of(r2.st.entries, id);
                            assert(idx_of(r2.st.entries, id) == i);
                            assert(r2.st.entries[i] == own[i]);
                        },
                        Option::None => {
                            assert(has_id(r2.st.entries, id)) by {
                                assert(r2.st.entries[i].id == r.st.entries[i].id);
                            }
                            lemma_idx_of(r2.st.entries, id);
                            assert(idx_of(r2.st.entries, id) == i);
                        },
                    }
                    assert(r2.st.entries[idx_of(r2.st.entries, id)].excl == r.st.entries[i].excl
                        + d);
                    assert(r2.st.entries[idx_of(r2.st.entries, id)].incl == tok.old_incl + d);
                } else {
                    assert(!stack_has(r.stack, id) || r.stack.last().id == id);
                    assert(!stack_has(r.stack, id));
                    if has_id(r.st.entries, id) {
                        lemma_idx_of(r.st.entries, id);
                        let k = idx_of(r.st.entries, id);
                        assert(k != i);
                        match tok.parent {
                            Option::Some(p) => {
                                assert(p != id) by {
                                    if r.stack.len() >= 2 {
                                        assert(tok.parent == Option::Some(
                                            r.stack[r.stack.len() - 2].id,
                                        ));
                                        if r.stack[r.stack.len() - 2].id == id {
                                            assert(stack_has(r.stack, id));
                                        }
                                    }
                                }
                                assert(has_id(own, p)) by {
                                    lemma_idx_of(r.st.entries, p);
                                    let kp = idx_of(r.st.entries, p);
                                    assert(own[kp].id == p);
                                }
                                lemma_idx_of(own, p);
                                let j = idx_of(own, p);
                                assert(j != k);
                                assert(r2.st.entries[k] == r.st.entries[k]);
                            },
                            Option::None => {
                                assert(r2.st.entries[k] == r.st.entries[k]);
                            },
                        }
                        lemma_idx_of(r2.st.entries, id);
                        assert(idx_of(r2.st.entries, id) == k);
                    } else {
                        assert(!has_id(r2.st.entries, id)) by {
                            if has_id(r2.st.entries, id) {
                                let k = choose|k: int|
                                    0 <= k < r2.st.entries.len() && r2.st.entries[k].id == id;
                                assert(r.st.entries[k].id == id);
                            }
                        }
                    }
                }
            },
        }
    }
}

/// The durations of the exits of span `id` summed over the run: an exit
/// event contributes when the span it closes (the newest open one)
/// carries `id`.
pub open spec fn exit_duration_sum(events: Seq<EventView>, t0: int, id: TraceIdView) -> int
    decreases events.len(),
{
    if events.len() == 0 {
        0
    } else {
        exit_duration_sum(events.drop_last(), t0, id) + (match events.last() {
            EventView::Exit(now) => {
                let r = run(events.drop_last(), t0);
                if r.stack.len() > 0 && r.stack.last().id == id {
                    now - r.stack.last().begin
                } else {
                    0int
                }
            },
            EventView::Enter(_, _) => 0int,
        })
    }
}

/// For a pure leaf, the exclusive total is exactly the durations of its
/// completed invocations summed; a span never seen has none.
#[verifier::rlimit(60)]
pub proof fn lemma_leaf_duration_sum(events: Seq<EventView>, t0: int, id: TraceIdView)
    requires
        run_ok(events, t0),
        leaf_in_run(events, t0, id),
    ensures
        has_id(run(events, t0).st.entries, id) ==> run(events, t0).st.entries[idx_of(
            run(events, t0).st.entries,
            id,
        )].excl == exit_duration_sum(events, t0, id),
        !has_id(run(events, t0).st.entries, id) ==> exit_duration_sum(events, t0, id) == 0,
    decreases events.len(),
{
    if events.len() == 0 {
    } else {
        let prefix = events.drop_last();
        let r = run(prefix, t0);
        let r2 = run(events, t0);
        lemma_leaf_duration_sum(prefix, t0, id);
        lemma_leaf_inv(prefix, t0, id);
        lemma_run_inv(prefix, t0);
        match events.last() {
            EventView::Enter(id2, now) => {
                lemma_enter_wf(r.st, id2, now);
                if has_id(r.st.entries, id2) {
                    assert(r2.st.entries == r.st.entries);
                } else {
                    let n = r.st.entries.len() as int;
                    assert(forall|k: int|
                        0 <= k < n ==> r2.st.entries[k] == #[trigger] r.st.entries[k]);
                    assert(r2.st.entries[n] == fresh_entry(id2, n));
                    if id == id2 {
                        lemma_idx_of(r2.st.entries, id);
                        assert(r2.st.entries[n].id == id);
                        assert(idx_of(r2.st.entries, id) == n);
                    } else {
                        if has_id(r.st.entries, id) {
                            lemma_idx_of(r.st.entries, id);
                            let k = idx_of(r.st.entries, id);
                            assert(r2.st.entries[k].id == id);
                            lemma_idx_of(r2.st.entries, id);
                            assert(idx_of(r2.st.entries, id) == k);
                        } else {
                            assert(!has_id(r2.st.entries, id)) by {
                                if has_id(r2.st.entries, id) {
                                    let k = choose|k: int|
                                        0 <= k < r2.st.entries.len() && r2.st.entries[k].id == id;
                                    assert(k != n);
                                    assert(r.st.entries[k].id == id);
                                }
                            }
                        }
                    }
                }
            },
            EventView::Exit(now) => {
                let tok = r.stack.last();
                assert(token_wf(r.st, tok));
                lemma_idx_of(r.st.entries, tok.id);
                lemma_exit_wf(r.st, tok, now);
                let d = now - tok.begin;
                let i = idx_of(r.st.entries, tok.id);
                let own = r.st.entries.update(
                    i,
                    exit_upd_own(r.st.entries[i], d, tok.old_incl),
                );
                assert(forall|k: int|
                    0 <= k < own.len() ==> (#[trigger] own[k]).id == r.st.entries[k].id);
                assert(crate::model::distinct_ids(own));
                assert(forall|k: int|
                    0 <= k < r2.st.entries.len() ==> (#[trigger] r2.st.entries[k]).id
                        == r.st.entries[k].id);
                if tok.id == id {
                    // the span's own exit: its row gains exactly the duration,
                    // and the saved parent is a different span
                    assert(stack_has(r.stack, id)) by {
                        assert(r.stack[r.stack.len() - 1].id == id);
                    }
                    assert(r.st.entries[i].excl + d <= i64::MAX);
                    match tok.parent {
                        Option::Some(p) => {
                            assert(p != id) by {
                                if r.stack.len() >= 2 {
                                    assert(tok.parent == Option::Some(
                                        r.stack[r.stack.len() - 2].id,
                                    ));
                                    assert(r.stack[r.stack.len() - 2].id != id);
                                }
                            }
                            assert(has_id(own, p)) by {
                                lemma_idx_of(r.st.entries, p);
                                let kp = idx_of(r.st.entries, p);
                                assert(own[kp].id == p);
                            }
                            lemma_idx_of(own, p);
                            assert(idx_of(own, p) != i);
                            assert(r2.st.entries[i] == own[i]);
                        },
                        Option::None => {},
                    }
                    assert(has_id(r2.st.entries, id)) by {
                        assert(r2.st.entries[i].id == id);
                    }
                    lemma_idx_of(r2.st.entries, id);
                    assert(idx_of(r2.st.entries, id) == i);
                    assert(r2.st.entries[i].excl == r.st.entries[i].excl + d);
                } else {
                    // some other span's exit: neither its own row nor the
                    // parent correction can touch the leaf's row
                    assert(!stack_has(r.stack, id)) by {
                        if stack_has(r.stack, id) {
                            assert(r.stack.last().id == id);
                        }
                    }
                    if has_id(r.st.entries, id) {
                        lemma_idx_of(r.st.entries, id);
                        let k = idx_of(r.st.entries, id);
                        assert(k != i);
                        match tok.parent {
                            Option::Some(p) => {
                                assert(p != id) by {
                                    if r.stack.len() >= 2 {
                                        assert(tok.parent == Option::Some(
                                            r.stack[r.stack.len() - 2].id,
                                        ));
                                        if r.stack[r.stack.len() - 2].id == id {
                                            assert(stack_has(r.stack, id));
                                        }
                                    }
                                }
                                assert(has_id(own, p)) by {
                                    lemma_idx_of(r.st.entries, p);
                                    let kp = idx_of(r.st.entries, p);
                                    assert(own[kp].id == p);
                                }
                                lemma_idx_of(own, p);
                                assert(idx_of(own, p) != k);
                                assert(r2.st.entries[k] == r.st.entries[k]);
                            },
                            Option::None => {
                                assert(r2.st.entries[k] == r.st.entries[k]);
                            },
                        }
                        lemma_idx_of(r2.st.entries, id);
                        assert(idx_of(r2.st.entries, id) == k);
                    } else {
                        assert(!has_id(r2.st.entries, id)) by {
                            if has_id(r2.st.entries, id) {
                                let k = choose|k: int|
                                    0 <= k < r2.st.entries.len() && r2.st.entries[k].id == id;
                                assert(r.st.entries[k].id == id);
                            }
                        }
                    }
                }
            },
        }
    }
}

/// LAW: a span never observed with a nested child (and never re-entered
/// while open) has `elapsed_exclusive == elapsed_inclusive` after any
/// number of completed invocations, both equal to the durations of all its
/// invocations summed: the two figures accumulate the same durations, and
/// nothing is ever subtracted from such a span.
pub proof fn law_leaf_exclusive_equals_inclusive(events: Seq<EventView>, t0: int, id: TraceIdView)
    requires
        run_ok(events, t0),
        leaf_in_run(events, t0, id),
        has_id(run(events, t0).st.entries, id),
        !stack_has(run(events, t0).stack, id),
    ensures
        ({
            let e = run(events, t0).st.entries[idx_of(run(events, t0).st.entries, id)];
            e.excl == e.incl && e.excl >= 0 && e.excl == exit_duration_sum(events, t0, id)
        }),
{
    lemma_leaf_inv(events, t0, id);
    lemma_leaf_duration_sum(events, t0, id);
}

/// LAW: at a child span's exit, the saved parent's exclusive total
/// decreases by exactly the child's duration, and nothing else of the
/// parent changes; over two sibling children with durations `d1` and `d2`
/// the parent thus loses exactly `d1 + d2` of its raw measured time.
pub proof fn law_parent_correction(s: StateView, tok: TokenView, now: int, p: TraceIdView)
    requires
        state_wf(s),
        token_wf(s, tok),
        now >= tok.begin,
        no_sat_exit(s, tok, now),
        tok.parent == Option::Some(p),
        p != tok.id,
    ensures
        ({
            let after = exit_model(s, tok, now).entries;
            let e = after[idx_of(after, p)];
            let before = s.entries[idx_of(s.entries, p)];
            &&& e.excl == before.excl - (now - tok.begin)
            &&& e.incl == before.incl
            &&& e.hits == before.hits
            &&& e.order == before.order
        }),
{
    let d = now - tok.begin;
    lemma_idx_of(s.entries, tok.id);
    lemma_idx_of(s.entries, p);
    let i = idx_of(s.entries, tok.id);
    let own = s.entries.update(i, exit_upd_own(s.entries[i], d, tok.old_incl));
    assert(forall|k: int| 0 <= k < own.len() ==> (#[trigger] own[k]).id == s.entries[k].id);
    assert(crate::model::distinct_ids(own));
    assert(has_id(own, p)) by {
        let kp = idx_of(s.entries, p);
        assert(own[kp].id == p);
    }
    lemma_idx_of(own, p);
    let j = idx_of(own, p);
    assert(j == idx_of(s.entries, p));
    assert(j != i);
    let after = exit_model(s, tok, now).entries;
    assert(forall|k: int| 0 <= k < after.len() ==> (#[trigger] after[k]).id == own[k].id);
    assert(crate::model::distinct_ids(after));
    assert(has_id(after, p)) by {
        assert(after[j].id == p);
    }
    lemma_idx_of(after, p);
    assert(idx_of(after, p) == j);
}

/// LAW: two span identities compare equal exactly when both fields agree
/// (the enclosing function's name, and the kind with its label); differing
/// in any one field they compare unequal. Equality is structural, never by
/// pointer.
pub proof fn law_identity_equality(a: &TraceId, b: &TraceId)
    ensures
        a.eq_spec(b) <==> (a.enclosing_function_name@ == b.enclosing_function_name@ && a.ty@
            == b.ty@),
{
    if a.enclosing_function_name@ == b.enclosing_function_name@ && a.ty@ == b.ty@ {
        assert(a@ == b@);
    }
    if a.eq_spec(b) {
        assert(a@.enclosing_function_name == b@.enclosing_function_name);
        assert(a@.ty == b@.ty);
    }
}

/// LAW: the instrumented-function scenario, for all cycle counts: a
/// function span `f` is entered once at `t0` and a loop span `l` inside it
/// runs three times with durations `d1 = t2 - t1`, `d2 = t4 - t3` and
/// `d3 = t6 - t5`; `f` exits at `t7`. Then `f` records one hit, inclusive
/// time `t7 - t0`, and exclusive time `(t7 - t0) - (d1 + d2 + d3)` -- the
/// loop's time is fully subtracted and only the overhead around it remains
/// -- while `l` records three hits with exclusive and inclusive totals
/// both `d1 + d2 + d3`.
#[verifier::rlimit(60)]
pub proof fn law_function_with_loop_scenario(
    f: TraceIdView,
    l: TraceIdView,
    t0: int,
    t1: int,
    t2: int,
    t3: int,
    t4: int,
    t5: int,
    t6: int,
    t7: int,
)
    requires
        f != l,
        0 <= t0 <= t1 <= t2 <= t3 <= t4 <= t5 <= t6 <= t7 <= i64::MAX,
    ensures
        ({
            let fin = run(
                seq![
                    EventView::Enter(f, t0),
                    EventView::Enter(l, t1),
                    EventView::Exit(t2),
                    EventView::Enter(l, t3),
                    EventView::Exit(t4),
                    EventView::Enter(l, t5),
                    EventView::Exit(t6),
                    EventView::Exit(t7),
                ],
                t0,
            ).st;
            let total = t7 - t0;
            let loop_time = (t2 - t1) + (t4 - t3) + (t6 - t5);
            &&& fin.entries.len() == 2
            &&& fin.entries[0] == (EntryView {
                id: f,
                excl: total - loop_time,
                incl: total,
                hits: 1,
                order: 0,
            })
            &&& fin.entries[1] == (EntryView {
                id: l,
                excl: loop_time,
                incl: loop_time,
                hits: 3,
                order: 1,
            })
            &&& fin.current == Option::<TraceIdView>::None
        }),
{
    let events = seq![
        EventView::Enter(f, t0),
        EventView::Enter(l, t1),
        EventView::Exit(t2),
        EventView::Enter(l, t3),
        EventView::Exit(t4),
        EventView::Enter(l, t5),
        EventView::Exit(t6),
        EventView::Exit(t7),
    ];
    let d1 = t2 - t1;
    let d2 = t4 - t3;
    let d3 = t6 - t5;

    let r0 = run_init(t0);
    let r1 = run_step(r0, events[0]);
    let r2 = run_step(r1, events[1]);
    let r3 = run_step(r2, events[2]);
    let r4 = run_step(r3, events[3]);
    let r5 = run_step(r4, events[4]);
    let r6 = run_step(r5, events[5]);
    let r7 = run_step(r6, events[6]);
    let r8 = run_step(r7, events[7]);
    assert(run(events, t0) == r8) by {
        assert(run(events.take(0), t0) == r0);
        assert(run(events.take(1), t0) == r1) by {
            assert(events.take(1).drop_last() =~= events.take(0));
            assert(events.take(1).last() == events[0]);
            assert(run(events.take(0), t0) == r0);
        }
        assert(run(events.take(2), t0) == r2) by {
            assert(events.take(2).drop_last() =~= events.take(1));
            assert(events.take(2).last() == events[1]);
            assert(run(events.take(1), t0) == r1);
        }
        assert(run(events.take(3), t0) == r3) by {
            assert(events.take(3).drop_last() =~= events.take(2));
            assert(events.take(3).last() == events[2]);
            assert(run(events.take(2), t0) == r2);
        }
        assert(run(events.take(4), t0) == r4) by {
            assert(events.take(4).drop_last() =~= events.take(3));
            assert(events.take(4).last() == events[3]);
            assert(run(events.take(3), t0) == r3);
        }
        assert(run(events.take(5), t0) == r5) by {
            assert(events.take(5).drop_last() =~= events.take(4));
            assert(events.take(5).last() == events[4]);
            assert(run(events.take(4), t0) == r4);
        }
        assert(run(events.take(6), t0) == r6) by {
            assert(events.take(6).drop_last() =~= events.take(5));
            assert(events.take(6).last() == events[5]);
            assert(run(events.take(5), t0) == r5);
        }
        assert(run(events.take(7), t0) == r7) by {
            assert(events.take(7).drop_last() =~= events.take(6));
            assert(events.take(7).last() == events[6]);
            assert(run(events.take(6), t0) == r6);
        }
        assert(events.drop_last() =~= events.take(7));
        assert(events.last() == events[7]);
    }

    let row_f0 = fresh_entry(f, 0);
    let row_l0 = fresh_entry(l, 1);

    // f enters: one fresh row, f active
    assert(!has_id(r0.st.entries, f));
    assert(r1.st.entries =~= seq![row_f0]);
    assert(r1.st.current == Option::Some(f));
    assert(r1.stack =~= seq![TokenView { id: f, parent: Option::None, begin: t0, old_incl: 0 }]);

    // the loop enters for the first time: a second fresh row, l active
    assert(!has_id(r1.st.entries, l)) by {
        if has_id(r1.st.entries, l) {
            let k = choose|k: int| 0 <= k < r1.st.entries.len() && r1.st.entries[k].id == l;
            assert(r1.st.entries[k].id == f);
        }
    }
    let tok_l1 = TokenView { id: l, parent: Option::Some(f), begin: t1, old_incl: 0 };
    assert(r2.st.entries =~= seq![row_f0, row_l0]);
    assert(r2.stack.last() == tok_l1);

    // first loop exit: l gains d1, f provisionally loses d1
    let row_f1 = EntryView { id: f, excl: -d1, incl: 0, hits: 0, order: 0 };
    let row_l1 = EntryView { id: l, excl: d1, incl: d1, hits: 1, order: 1 };
    assert(r3.st.entries =~= seq![row_f1, row_l1]) by {
        lemma_two_row_exit(r2.st.entries, tok_l1, t2, row_f0, row_l0);
    }
    assert(r3.st.current == Option::Some(f));
    assert(r3.stack =~= seq![TokenView { id: f, parent: Option::None, begin: t0, old_incl: 0 }]);

    // second loop pass
    assert(has_id(r3.st.entries, l)) by {
        assert(r3.st.entries[1].id == l);
    }
    let tok_l2 = TokenView { id: l, parent: Option::Some(f), begin: t3, old_incl: d1 };
    assert(r4.st.entries =~= r3.st.entries);
    assert(enter_token(r3.st, l, t3) == tok_l2) by {
        lemma_idx_of(r3.st.entries, l);
        assert(idx_of(r3.st.entries, l) == 1);
    }
    let row_f2 = EntryView { id: f, excl: -d1 - d2, incl: 0, hits: 0, order: 0 };
    let row_l2 = EntryView { id: l, excl: d1 + d2, incl: d1 + d2, hits: 2, order: 1 };
    assert(r5.st.entries =~= seq![row_f2, row_l2]) by {
        assert(r4.st.entries =~= seq![row_f1, row_l1]);
        lemma_two_row_exit(r4.st.entries, tok_l2, t4, row_f1, row_l1);
    }
    assert(r5.st.current == Option::Some(f));
    assert(r5.stack =~= seq![TokenView { id: f, parent: Option::None, begin: t0, old_incl: 0 }]);

    // third loop pass
    assert(has_id(r5.st.entries, l)) by {
        assert(r5.st.entries[1].id == l);
    }
    let tok_l3 = TokenView { id: l, parent: Option::Some(f), begin: t5, old_incl: d1 + d2 };
    assert(r6.st.entries =~= r5.st.entries);
    assert(enter_token(r5.st, l, t5) == tok_l3) by {
        lemma_idx_of(r5.st.entries, l);
        assert(idx_of(r5.st.entries, l) == 1);
    }
    let row_f3 = EntryView { id: f, excl: -d1 - d2 - d3, incl: 0, hits: 0, order: 0 };
    let row_l3 = EntryView { id: l, excl: d1 + d2 + d3, incl: d1 + d2 + d3, hits: 3, order: 1 };
    assert(r7.st.entries =~= seq![row_f3, row_l3]) by {
        assert(r6.st.entries =~= seq![row_f2, row_l2]);
        lemma_two_row_exit(r6.st.entries, tok_l3, t6, row_f2, row_l2);
    }
    assert(r7.st.current == Option::Some(f));
    assert(r7.stack =~= seq![TokenView { id: f, parent: Option::None, begin: t0, old_incl: 0 }]);

    // f exits: its row gains its whole window, nothing is subtracted
    let tok_f = TokenView { id: f, parent: Option::None, begin: t0, old_incl: 0 };
    assert(r7.stack.last() == tok_f);
    let row_f4 = EntryView {
        id: f,
        excl: (t7 - t0) - (d1 + d2 + d3),
        incl: t7 - t0,
        hits: 1,
        order: 0,
    };
    assert(r8.st.entries =~= seq![row_f4, row_l3]) by {
        assert(r7.st.entries =~= seq![row_f3, row_l3]);
        lemma_idx_of_two_rows(r7.st.entries, f, l);
        let i = idx_of(r7.st.entries, f);
        assert(i == 0);
        assert(exit_upd_own(r7.st.entries[0], t7 - t0, 0) == row_f4);
        assert(exit_entries(r7.st.entries, tok_f, t7) =~= r7.st.entries.update(0, row_f4));
    }
    assert(r8.st.current == Option::<TraceIdView>::None);
    assert(r8.st.entries[0] == row_f4);
    assert(r8.st.entries[1] == row_l3);
}

/// Resolves both indices of a two-row table with distinct identities.
proof fn lemma_idx_of_two_rows(entries: Seq<EntryView>, a: TraceIdView, b: TraceIdView)
    requires
        entries.len() == 2,
        entries[0].id == a,
        entries[1].id == b,
        a != b,
    ensures
        idx_of(entries, a) == 0,
        idx_of(entries, b) == 1,
{
    assert(crate::model::distinct_ids(entries));
    assert(has_id(entries, a)) by {
        assert(entries[0].id == a);
    }
    assert(has_id(entries, b)) by {
        assert(entries[1].id == b);
    }
    lemma_idx_of(entries, a);
    lemma_idx_of(entries, b);
}

/// One loop exit on the two-row table: the loop's row (second) gains the
/// duration onto the token's snapshot, and the function's row (first,
/// the saved parent) provisionally loses the duration.
proof fn lemma_two_row_exit(
    entries: Seq<EntryView>,
    tok: TokenView,
    now: int,
    row_parent: EntryView,
    row_own: EntryView,
)
    requires
        entries.len() == 2,
        entries[0] == row_parent,
        entries[1] == row_own,
        row_own.id != row_parent.id,
        tok.id == row_own.id,
        tok.parent == Option::Some(row_parent.id),
        tok.begin <= now,
        i64::MIN <= row_parent.excl - (now - tok.begin),
        row_parent.excl <= i64::MAX,
        row_own.excl + (now - tok.begin) <= i64::MAX,
        0 <= row_own.excl,
        0 <= tok.old_incl,
        tok.old_incl + (now - tok.begin) <= u64::MAX,
        row_own.hits + 1 <= usize::MAX,
        0 <= row_own.hits,
    ensures
        exit_entries(entries, tok, now) =~= seq![
            EntryView {
                id: row_parent.id,
                excl: row_parent.excl - (now - tok.begin),
                incl: row_parent.incl,
                hits: row_parent.hits,
                order: row_parent.order,
            },
            EntryView {
                id: row_own.id,
                excl: row_own.excl + (now - tok.begin),
                incl: tok.old_incl + (now - tok.begin),
                hits: row_own.hits + 1,
                order: row_own.order,
            },
        ],
{
    let d = now - tok.begin;
    lemma_idx_of_two_rows(entries, row_parent.id, row_own.id);
    assert(idx_of(entries, tok.id) == 1);
    let own_row = EntryView {
        id: row_own.id,
        excl: row_own.excl + d,
        incl: tok.old_incl + d,
        hits: row_own.hits + 1,
        order: row_own.order,
    };
    assert(exit_upd_own(entries[1], d, tok.old_incl) == own_row) by {
        assert(crate::model::sat_signed(row_own.excl + d) == row_own.excl + d);
        assert(crate::model::sat_unsigned(tok.old_incl + d) == tok.old_incl + d);
        assert(crate::model::sat_count(row_own.hits + 1) == row_own.hits + 1);
    }
    let own = entries.update(1, own_row);
    assert(own.len() == 2 && own[0].id == row_parent.id && own[1].id == row_own.id);
    lemma_idx_of_two_rows(own, row_parent.id, row_own.id);
    assert(idx_of(own, row_parent.id) == 0);
    let par_row = EntryView {
        id: row_parent.id,
        excl: row_parent.excl - d,
        incl: row_parent.incl,
        hits: row_parent.hits,
        order: row_parent.order,
    };
    assert(crate::model::sat_signed(own[0].excl - d) == row_parent.excl - d);
    assert(exit_entries(entries, tok, now) =~= own.update(0, par_row));
}

/// LAW: two sibling spans under the same parent, exited one after the
/// other with durations `d1 = n1 - t1.begin` and `d2 = n2 - t2.begin`,
/// lower the parent's exclusive total by exactly `d1 + d2` relative to its
/// raw measured time.
pub proof fn law_two_siblings_correction(
    s: StateView,
    t1: TokenView,
    n1: int,
    t2: TokenView,
    n2: int,
    p: TraceIdView,
)
    requires
        state_wf(s),
        token_wf(s, t1),
        n1 >= t1.begin,
        no_sat_exit(s, t1, n1),
        t1.parent == Option::Some(p),
        p != t1.id,
        token_wf(exit_model(s, t1, n1), t2),
        n2 >= t2.begin,
        no_sat_exit(exit_model(s, t1, n1), t2, n2),
        t2.parent == Option::Some(p),
        p != t2.id,
    ensures
        ({
            let mid = exit_model(s, t1, n1);
            let after = exit_model(mid, t2, n2).entries;
            after[idx_of(after, p)].excl == s.entries[idx_of(s.entries, p)].excl - ((n1
                - t1.begin) + (n2 - t2.begin))
        }),
{
    let mid = exit_model(s, t1, n1);
    lemma_exit_wf(s, t1, n1);
    law_parent_correction(s, t1, n1, p);
    law_parent_correction(mid, t2, n2, p);
}

/// LAW: at a span's own exit, its row gains exactly the invocation's
/// duration in the exclusive total, its inclusive total becomes the
/// token's snapshot plus the duration, and its hit count steps by one.
pub proof fn law_own_exit(s: StateView, tok: TokenView, now: int)
    requires
        state_wf(s),
        token_wf(s, tok),
        now >= tok.begin,
        no_sat_exit(s, tok, now),
        match tok.parent {
            Option::Some(p) => p != tok.id,
            Option::None => true,
        },
    ensures
        ({
            let after = exit_model(s, tok, now).entries;
            let e = after[idx_of(after, tok.id)];
            let before = s.entries[idx_of(s.entries, tok.id)];
            &&& e.excl == before.excl + (now - tok.begin)
            &&& e.incl == tok.old_incl + (now - tok.begin)
            &&& e.hits == before.hits + 1
            &&& e.order == before.order
        }),
{
    let d = now - tok.begin;
    lemma_idx_of(s.entries, tok.id);
    let i = idx_of(s.entries, tok.id);
    let own = s.entries.update(i, exit_upd_own(s.entries[i], d, tok.old_incl));
    assert(forall|k: int| 0 <= k < own.len() ==> (#[trigger] own[k]).id == s.entries[k].id);
    assert(crate::model::distinct_ids(own));
    let after = exit_model(s, tok, now).entries;
    match tok.parent {
        Option::Some(p) => {
            assert(has_id(own, p)) by {
                lemma_idx_of(s.entries, p);
                let kp = idx_of(s.entries, p);
                assert(own[kp].id == p);
            }
            lemma_idx_of(own, p);
            assert(idx_of(own, p) != i);
            assert(after[i] == own[i]);
        },
        Option::None => {},
    }
    assert(forall|k: int| 0 <= k < after.len() ==> (#[trigger] after[k]).id == s.entries[k].id);
    assert(crate::model::distinct_ids(after));
    assert(has_id(after, tok.id)) by {
        assert(after[i].id == tok.id);
    }
    lemma_idx_of(after, tok.id);
    assert(idx_of(after, tok.id) == i);
}

/// LAW: a parent span under which two sibling children ran with durations
/// `d1 = n1 - t1.begin` and `d2 = n2 - t2.begin`, closed by its own exit
/// of raw duration `D = n3 - tp.begin`, ends with exclusive total exactly
/// `old + D - (d1 + d2)`: each child's exit subtracted its duration, the
/// parent's own exit added its raw measured time, and nothing else moved
/// the row.
pub proof fn law_parent_of_two_siblings(
    s: StateView,
    t1: TokenView,
    n1: int,
    t2: TokenView,
    n2: int,
    tp: TokenView,
    n3: int,
    p: TraceIdView,
)
    requires
        state_wf(s),
        token_wf(s, t1),
        n1 >= t1.begin,
        no_sat_exit(s, t1, n1),
        t1.parent == Option::Some(p),
        p != t1.id,
        token_wf(exit_model(s, t1, n1), t2),
        n2 >= t2.begin,
        no_sat_exit(exit_model(s, t1, n1), t2, n2),
        t2.parent == Option::Some(p),
        p != t2.id,
        token_wf(exit_model(exit_model(s, t1, n1), t2, n2), tp),
        n3 >= tp.begin,
        no_sat_exit(exit_model(exit_model(s, t1, n1), t2, n2), tp, n3),
        tp.id == p,
        match tp.parent {
            Option::Some(q) => q != p,
            Option::None => true,
        },
    ensures
        ({
            let closed = exit_model(exit_model(exit_model(s, t1, n1), t2, n2), tp, n3).entries;
            closed[idx_of(closed, p)].excl == s.entries[idx_of(s.entries, p)].excl + (n3
                - tp.begin) - ((n1 - t1.begin) + (n2 - t2.begin))
        }),
{
    let mid1 = exit_model(s, t1, n1);
    let mid2 = exit_model(mid1, t2, n2);
    lemma_exit_wf(s, t1, n1);
    lemma_exit_wf(mid1, t2, n2);
    law_two_siblings_correction(s, t1, n1, t2, n2, p);
    law_own_exit(mid2, tp, n3);
}

} // verus!
