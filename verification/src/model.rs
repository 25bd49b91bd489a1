//! The mathematical model of the trace-aggregation engine.
//!
//! The profiler's observable state is a sequence of table rows in
//! first-seen order plus the identity of the currently active span. The
//! two operations, entering and exiting a span, are specified here as pure
//! functions of that state; the executable code in `profiler` is verified
//! to realize exactly these functions.
//!
//! Counter arithmetic saturates at the bounds of the concrete integer
//! types, and the model says so exactly; the laws in `laws` describe runs
//! in which no counter saturates.

use vstd::prelude::*;

use crate::trace::TraceIdView;

verus! {

/// Mathematical image of one trace-table row.
#[verifier::ext_equal]
pub struct EntryView {
    pub id: TraceIdView,
    pub excl: int,
    pub incl: int,
    pub hits: int,
    pub order: int,
}

/// Mathematical image of a scoped-span token: the span it measures, the
/// span that was active when it was opened, the cycle count at entry, and
/// the span's inclusive total as it stood before this invocation.
pub struct TokenView {
    pub id: TraceIdView,
    pub parent: Option<TraceIdView>,
    pub begin: int,
    pub old_incl: int,
}

/// Mathematical image of the aggregation state.
#[verifier::ext_equal]
pub struct StateView {
    pub entries: Seq<EntryView>,
    pub current: Option<TraceIdView>,
}

/// Addition result clamped to the range of `i64`.
pub open spec fn sat_signed(x: int) -> int {
    if x > i64::MAX {
        i64::MAX as int
    } else if x < i64::MIN {
        i64::MIN as int
    } else {
        x
    }
}

/// Addition result clamped to the range of `u64`.
pub open spec fn sat_unsigned(x: int) -> int {
    if x > u64::MAX {
        u64::MAX as int
    } else if x < 0 {
        0
    } else {
        x
    }
}

/// Addition result clamped to the range of `usize`.
pub open spec fn sat_count(x: int) -> int {
    if x > usize::MAX {
        usize::MAX as int
    } else if x < 0 {
        0
    } else {
        x
    }
}

/// Whether some row carries identity `id`.
pub open spec fn has_id(entries: Seq<EntryView>, id: TraceIdView) -> bool {
    exists|i: int| 0 <= i < entries.len() && entries[i].id == id
}

/// The index of the row carrying identity `id` (unique when the ids are
/// distinct and `has_id` holds).
pub open spec fn idx_of(entries: Seq<EntryView>, id: TraceIdView) -> int {
    choose|i: int| 0 <= i < entries.len() && entries[i].id == id
}

/// No two rows carry the same identity.
pub open spec fn distinct_ids(entries: Seq<EntryView>) -> bool {
    forall|i: int, j: int|
        0 <= i < entries.len() && 0 <= j < entries.len() && i != j ==> entries[i].id
            != entries[j].id
}

/// Every counter of the row fits its concrete integer type.
pub open spec fn entry_in_range(e: EntryView) -> bool {
    &&& i64::MIN <= e.excl <= i64::MAX
    &&& 0 <= e.incl <= u64::MAX
    &&& 0 <= e.hits <= usize::MAX
}

/// Well-formed aggregation state: identities are unique, the rows stand in
/// first-seen order (row `i` was the `i`-th identity ever seen), counters
/// fit their types, and the active span, if any, has a row.
pub open spec fn state_wf(s: StateView) -> bool {
    &&& distinct_ids(s.entries)
    &&& forall|i: int| 0 <= i < s.entries.len() ==> (#[trigger] s.entries[i]).order == i
    &&& forall|i: int| 0 <= i < s.entries.len() ==> entry_in_range(#[trigger] s.entries[i])
    &&& match s.current {
        Option::Some(id) => has_id(s.entries, id),
        Option::None => true,
    }
}

/// The state with no spans ever seen and none active.
pub open spec fn empty_state() -> StateView {
    StateView { entries: Seq::empty(), current: Option::None }
}

/// A fresh row: all counters zero, first-seen position `order`.
pub open spec fn fresh_entry(id: TraceIdView, order: int) -> EntryView {
    EntryView { id, excl: 0, incl: 0, hits: 0, order }
}

/// The table after entering `id`: unchanged if `id` has a row already,
/// otherwise extended by a fresh row at the end.
pub open spec fn enter_entries(entries: Seq<EntryView>, id: TraceIdView) -> Seq<EntryView> {
    if has_id(entries, id) {
        entries
    } else {
        entries.push(fresh_entry(id, entries.len() as int))
    }
}

/// The inclusive total of `id`'s row before an entry, zero for a fresh row.
pub open spec fn incl_before(entries: Seq<EntryView>, id: TraceIdView) -> int {
    if has_id(entries, id) {
        entries[idx_of(entries, id)].incl
    } else {
        0
    }
}

/// The token produced by entering `id` at cycle count `now` in state `s`.
pub open spec fn enter_token(s: StateView, id: TraceIdView, now: int) -> TokenView {
    TokenView { id, parent: s.current, begin: now, old_incl: incl_before(s.entries, id) }
}

/// The state after entering `id` at cycle count `now`.
pub open spec fn enter_model(s: StateView, id: TraceIdView, now: int) -> StateView {
    StateView { entries: enter_entries(s.entries, id), current: Option::Some(id) }
}

/// The measured span's own row after its exit: the duration `d` joins the
/// exclusive total, the inclusive total becomes the pre-invocation figure
/// from the token plus `d`, and the hit count steps by one.
pub open spec fn exit_upd_own(e: EntryView, d: int, old_incl: int) -> EntryView {
    EntryView {
        id: e.id,
        excl: sat_signed(e.excl + d),
        incl: sat_unsigned(old_incl + d),
        hits: sat_count(e.hits + 1),
        order: e.order,
    }
}

/// The table after exiting the span of token `tok` at cycle count `now`:
/// the span's own row is updated, and the duration is subtracted from the
/// parent's exclusive total, which had provisionally counted it.
pub open spec fn exit_entries(entries: Seq<EntryView>, tok: TokenView, now: int) -> Seq<
    EntryView,
> {
    let d = now - tok.begin;
    let i = idx_of(entries, tok.id);
    let own = entries.update(i, exit_upd_own(entries[i], d, tok.old_incl));
    match tok.parent {
        Option::Some(p) => {
            let j = idx_of(own, p);
            own.update(
                j,
                EntryView {
                    id: own[j].id,
                    excl: sat_signed(own[j].excl - d),
                    incl: own[j].incl,
                    hits: own[j].hits,
                    order: own[j].order,
                },
            )
        },
        Option::None => own,
    }
}

/// The state after exiting the span of token `tok` at cycle count `now`:
/// the table is updated and the parent saved in the token becomes the
/// active span again.
pub open spec fn exit_model(s: StateView, tok: TokenView, now: int) -> StateView {
    StateView { entries: exit_entries(s.entries, tok, now), current: tok.parent }
}

/// A token that the state can accept for an exit: the measured span and
/// the saved parent both have rows, and the token's numbers fit `u64`.
pub open spec fn token_wf(s: StateView, t: TokenView) -> bool {
    &&& has_id(s.entries, t.id)
    &&& match t.parent {
        Option::Some(p) => has_id(s.entries, p),
        Option::None => true,
    }
    &&& 0 <= t.begin <= u64::MAX
    &&& 0 <= t.old_incl <= u64::MAX
}

/// With distinct identities, `idx_of` is the one index whose row carries
/// `id`.
pub proof fn lemma_idx_of(entries: Seq<EntryView>, id: TraceIdView)
    requires
        distinct_ids(entries),
        has_id(entries, id),
    ensures
        0 <= idx_of(entries, id) < entries.len(),
        entries[idx_of(entries, id)].id == id,
        forall|k: int| 0 <= k < entries.len() && entries[k].id == id ==> k == idx_of(entries, id),
{
    let i = choose|i: int| 0 <= i < entries.len() && entries[i].id == id;
    assert(0 <= i < entries.len() && entries[i].id == id);
}

/// Entering preserves well-formedness and makes the entered span active.
pub proof fn lemma_enter_wf(s: StateView, id: TraceIdView, now: int)
    requires
        state_wf(s),
    ensures
        state_wf(enter_model(s, id, now)),
        has_id(enter_model(s, id, now).entries, id),
{
    let after = enter_model(s, id, now);
    if has_id(s.entries, id) {
        assert(after.entries == s.entries);
    } else {
        let n = s.entries.len() as int;
        assert(after.entries[n] == fresh_entry(id, n));
        assert(forall|i: int|
            0 <= i < s.entries.len() ==> after.entries[i] == #[trigger] s.entries[i]);
        assert(distinct_ids(after.entries)) by {
            assert(forall|i: int, j: int|
                0 <= i < after.entries.len() && 0 <= j < after.entries.len() && i != j
                    ==> after.entries[i].id != after.entries[j].id) by {
                assert(forall|i: int| 0 <= i < n ==> (#[trigger] after.entries[i]).id != id);
            }
        }
        assert(entry_in_range(after.entries[n]));
        assert(has_id(after.entries, id));
    }
}

/// Exiting preserves well-formedness and leaves the set of identities and
/// the row order unchanged.
pub proof fn lemma_exit_wf(s: StateView, tok: TokenView, now: int)
    requires
        state_wf(s),
        token_wf(s, tok),
        now >= tok.begin,
    ensures
        state_wf(exit_model(s, tok, now)),
        exit_model(s, tok, now).entries.len() == s.entries.len(),
        forall|i: int|
            0 <= i < s.entries.len() ==> (#[trigger] exit_model(s, tok, now).entries[i]).id
                == s.entries[i].id,
{
    let after = exit_model(s, tok, now);
    lemma_idx_of(s.entries, tok.id);
    let d = now - tok.begin;
    let i = idx_of(s.entries, tok.id);
    let own = s.entries.update(i, exit_upd_own(s.entries[i], d, tok.old_incl));
    assert(forall|k: int| 0 <= k < own.len() ==> (#[trigger] own[k]).id == s.entries[k].id);
    assert(forall|k: int| 0 <= k < own.len() ==> (#[trigger] own[k]).order == s.entries[k].order);
    assert(forall|k: int| 0 <= k < own.len() ==> entry_in_range(#[trigger] own[k]));
    match tok.parent {
        Option::Some(p) => {
            assert(has_id(own, p)) by {
                let k = idx_of(s.entries, p);
                lemma_idx_of(s.entries, p);
                assert(own[k].id == p);
            }
            lemma_idx_of(own, p);
            let j = idx_of(own, p);
            assert(forall|k: int|
                0 <= k < after.entries.len() ==> (#[trigger] after.entries[k]).id == own[k].id);
            assert(forall|k: int|
                0 <= k < after.entries.len() ==> (#[trigger] after.entries[k]).order
                    == own[k].order);
            assert(forall|k: int|
                0 <= k < after.entries.len() ==> entry_in_range(#[trigger] after.entries[k]));
            assert(has_id(after.entries, p)) by {
                assert(after.entries[j].id == p);
            }
        },
        Option::None => {},
    }
}

} // verus!
