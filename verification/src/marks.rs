//! A flat, non-nesting section recorder: each named section is begun once
//! and ended once, and the stats report lists every section's duration and
//! its share of the total, in the order the sections were begun.
//!
//! This is the simpler companion of the hierarchical profiler: sections do
//! not nest, nothing is subtracted, and a section's identity is a plain
//! name.

use vstd::prelude::*;
use vstd::string::StringExecFns;

use crate::fmt::dec_rep;
use crate::fmt::four_digits;
use crate::fmt::percent_chars;
use crate::fmt::push_fixed4;
use crate::fmt::push_percent;
use crate::fmt::push_u64;
use crate::model::sat_unsigned;

verus! {

/// One timed section: the cycle count at its begin mark and, once it has
/// ended, the cycle count at its end mark.
#[derive(Debug, Clone, Copy)]
pub struct Trace {
    begin: u64,
    end: Option<u64>,
}

/// Mathematical image of one timed section.
pub struct MarkView {
    pub begin: int,
    pub end: Option<int>,
}

impl View for Trace {
    type V = MarkView;

    closed spec fn view(&self) -> MarkView {
        MarkView {
            begin: self.begin as int,
            end: match self.end {
                Option::Some(e) => Option::Some(e as int),
                Option::None => Option::None,
            },
        }
    }
}

impl Trace {
    /// A section begun at cycle count `begin`, not yet ended.
    pub fn new(begin: u64) -> (r: Trace)
        ensures
            r@.begin == begin,
            r@.end == Option::<int>::None,
    {
        Trace { begin, end: Option::None }
    }

    /// Marks the end of the section at cycle count `end`, which must lie
    /// after its begin; ending twice is an instrumentation bug and is
    /// ruled out.
    pub fn end(&mut self, end: u64)
        requires
            old(self)@.end == Option::<int>::None,
            end > old(self)@.begin,
        ensures
            final(self)@.begin == old(self)@.begin,
            final(self)@.end == Option::Some(end as int),
    {
        self.end = Option::Some(end);
    }

    /// The section's duration in cycles; defined once it has ended.
    pub fn delta(&self) -> (d: u64)
        requires
            match self@.end {
                Option::Some(e) => e > self@.begin,
                Option::None => false,
            },
        ensures
            self@.end == Option::Some(self@.begin + d),
    {
        match self.end {
            Option::Some(e) => e - self.begin,
            Option::None => {
                proof {
                    assert(false);
                }
                0
            },
        }
    }
}

/// Mathematical image of one recorded section with its name.
pub struct SectionView {
    pub name: Seq<char>,
    pub begin: int,
    pub end: Option<int>,
}

/// Whether some recorded section carries `name`.
pub open spec fn sec_has(s: Seq<SectionView>, name: Seq<char>) -> bool {
    exists|i: int| 0 <= i < s.len() && s[i].name == name
}

/// The index of the section named `name` (unique when names are distinct).
pub open spec fn sec_idx(s: Seq<SectionView>, name: Seq<char>) -> int {
    choose|i: int| 0 <= i < s.len() && s[i].name == name
}

/// Well-formed recording: names are distinct, and an ended section ended
/// after it began.
pub open spec fn rec_wf(s: Seq<SectionView>) -> bool {
    &&& forall|i: int, j: int|
        0 <= i < s.len() && 0 <= j < s.len() && i != j ==> s[i].name != s[j].name
    &&& forall|i: int|
        0 <= i < s.len() ==> match (#[trigger] s[i]).end {
            Option::Some(e) => 0 <= s[i].begin < e <= u64::MAX,
            Option::None => 0 <= s[i].begin <= u64::MAX,
        }
}

/// The recorder: every section begun so far, in the order begun.
pub struct Recorder {
    names: Vec<String>,
    trace_marks: Vec<Trace>,
}

impl View for Recorder {
    type V = Seq<SectionView>;

    closed spec fn view(&self) -> Seq<SectionView> {
        Seq::new(
            self.names@.len(),
            |i: int|
                SectionView {
                    name: self.names@[i]@,
                    begin: self.trace_marks@[i]@.begin,
                    end: self.trace_marks@[i]@.end,
                },
        )
    }
}

impl Recorder {
    /// Whether the concrete vectors and the model agree.
    pub closed spec fn wf(&self) -> bool {
        &&& self.names@.len() == self.trace_marks@.len()
        &&& rec_wf(self@)
    }

    /// A fresh recorder with no sections.
    pub fn new() -> (r: Recorder)
        ensures
            r.wf(),
            r@ == Seq::<SectionView>::empty(),
    {
        let r = Recorder { names: Vec::new(), trace_marks: Vec::new() };
        proof {
            assert(r@ =~= Seq::<SectionView>::empty());
        }
        r
    }

    /// Finds the position of the section named `id`.
    fn find(&self, id: &str) -> (r: Option<usize>)
        ensures
            match r {
                Option::Some(i) => 0 <= i < self@.len() && self@[i as int].name == id@,
                Option::None => !sec_has(self@, id@),
            },
    {
        let key = id.to_owned();
        let n = self.names.len();
        let mut k: usize = 0;
        while k < n
            invariant
                n == self.names@.len(),
                k <= n,
                key@ == id@,
                forall|j: int| 0 <= j < k ==> self@[j].name != id@,
            decreases n - k,
        {
            let candidate: &String = &self.names[k];
            if candidate.eq(&key) {
                return Option::Some(k);
            }
            k += 1;
        }
        Option::None
    }

    /// Whether a section named `id` was begun.
    pub fn has_mark(&self, id: &str) -> (r: bool)
        ensures
            r == sec_has(self@, id@),
    {
        match self.find(id) {
            Option::Some(_) => true,
            Option::None => false,
        }
    }

    /// The section named `id`, if begun.
    pub fn mark(&self, id: &str) -> (r: Option<Trace>)
        requires
            self.wf(),
        ensures
            match r {
                Option::Some(t) => {
                    &&& sec_has(self@, id@)
                    &&& t@.begin == self@[sec_idx(self@, id@)].begin
                    &&& t@.end == self@[sec_idx(self@, id@)].end
                },
                Option::None => !sec_has(self@, id@),
            },
    {
        match self.find(id) {
            Option::Some(i) => {
                proof {
                    lemma_sec_idx(self@, id@);
                }
                Option::Some(self.trace_marks[i])
            },
            Option::None => Option::None,
        }
    }
}

/// With distinct names, `sec_idx` is the one index carrying the name.
pub proof fn lemma_sec_idx(s: Seq<SectionView>, name: Seq<char>)
    requires
        rec_wf(s),
        sec_has(s, name),
    ensures
        0 <= sec_idx(s, name) < s.len(),
        s[sec_idx(s, name)].name == name,
        forall|k: int| 0 <= k < s.len() && s[k].name == name ==> k == sec_idx(s, name),
{
    let i = choose|i: int| 0 <= i < s.len() && s[i].name == name;
    assert(0 <= i < s.len() && s[i].name == name);
}

/// Captures the begin cycle count for section `id`. Beginning the same
/// section twice is an instrumentation bug and is ruled out.
pub fn trace_begin(r: &mut Recorder, id: &str, now: u64)
    requires
        old(r).wf(),
        !sec_has(old(r)@, id@),
    ensures
        final(r).wf(),
        final(r)@ == old(r)@.push(
            SectionView { name: id@, begin: now as int, end: Option::None },
        ),
{
    let ghost pre = r@;
    r.names.push(id.to_owned());
    r.trace_marks.push(Trace::new(now));
    proof {
        let n = pre.len() as int;
        assert(r@ =~= pre.push(SectionView { name: id@, begin: now as int, end: Option::None }));
        assert(forall|i: int, j: int|
            0 <= i < r@.len() && 0 <= j < r@.len() && i != j ==> r@[i].name != r@[j].name) by {
            assert(forall|i: int| 0 <= i < n ==> (#[trigger] r@[i]).name != id@);
        }
    }
}

/// Captures the end cycle count for section `id`, which must have begun,
/// not yet ended, and begun before `now`. Anything else is an
/// instrumentation bug and is ruled out.
pub fn trace_end(r: &mut Recorder, id: &str, now: u64)
    requires
        old(r).wf(),
        sec_has(old(r)@, id@),
        old(r)@[sec_idx(old(r)@, id@)].end == Option::<int>::None,
        now > old(r)@[sec_idx(old(r)@, id@)].begin,
    ensures
        final(r).wf(),
        final(r)@ == old(r)@.update(
            sec_idx(old(r)@, id@),
            SectionView {
                name: id@,
                begin: old(r)@[sec_idx(old(r)@, id@)].begin,
                end: Option::Some(now as int),
            },
        ),
{
    let ghost pre = r@;
    proof {
        lemma_sec_idx(pre, id@);
    }
    let i: usize = match r.find(id) {
        Option::Some(i) => i,
        Option::None => {
            proof {
                assert(false);
            }
            0
        },
    };
    let mut t = r.trace_marks[i];
    t.end(now);
    r.trace_marks[i] = t;
    proof {
        assert(r@ =~= pre.update(
            sec_idx(pre, id@),
            SectionView {
                name: id@,
                begin: pre[sec_idx(pre, id@)].begin,
                end: Option::Some(now as int),
            },
        ));
    }
}

/// The duration of one ended section.
pub open spec fn delta_of(sec: SectionView) -> int {
    match sec.end {
        Option::Some(e) => e - sec.begin,
        Option::None => 0,
    }
}

/// The durations of all sections summed.
pub open spec fn sum_deltas(s: Seq<SectionView>) -> int
    decreases s.len(),
{
    if s.len() == 0 {
        0
    } else {
        sum_deltas(s.drop_last()) + delta_of(s.last())
    }
}

/// Every section has ended.
pub open spec fn all_ended(s: Seq<SectionView>) -> bool {
    forall|i: int| 0 <= i < s.len() ==> (#[trigger] s[i]).end != Option::<int>::None
}

/// The stats report: the total of all section durations rendered as
/// seconds with four fraction digits at frequency `freq`, then one line
/// per section in begin order with its duration and its rounded share of
/// the total. The total saturates at `u64`; an empty total divides as one.
pub open spec fn stats_chars(s: Seq<SectionView>, freq: int) -> Seq<Seq<char>> {
    let total = sat_unsigned(sum_deltas(s));
    let divisor = if total >= 1 {
        total
    } else {
        1
    };
    let v = total * 10_000 / freq;
    seq![
        "Total time: "@ + (dec_rep(v / 10_000) + seq!['.'] + four_digits(v % 10_000))
            + " (CPU freq "@ + dec_rep(freq) + ")"@,
    ] + Seq::new(
        s.len(),
        |i: int|
            "  "@ + s[i].name + ": "@ + dec_rep(delta_of(s[i])) + " ("@ + percent_chars(
                delta_of(s[i]),
                divisor,
            ) + "%)"@,
    )
}

/// Renders the stats report for all recorded sections.
pub fn trace_stats(r: &Recorder, freq: u64) -> (lines: Vec<String>)
    requires
        r.wf(),
        all_ended(r@),
        freq >= 1,
    ensures
        lines.deep_view() == stats_chars(r@, freq as int),
{
    let n = r.names.len();
    let ghost s = r@;

    let mut acc: u128 = 0;
    let mut k: usize = 0;
    while k < n
        invariant
            r.wf(),
            all_ended(r@),
            s == r@,
            n == r@.len(),
            k <= n,
            acc as int == sum_deltas(r@.take(k as int)),
            acc as int <= k * 0xffff_ffff_ffff_ffffu64,
        decreases n - k,
    {
        let t = r.trace_marks[k];
        proof {
            assert(t@.begin == r@[k as int].begin && t@.end == r@[k as int].end);
            assert((#[trigger] r@[k as int]).end != Option::<int>::None);
        }
        let d = t.delta();
        proof {
            assert(r@.take(k + 1).drop_last() =~= r@.take(k as int));
            assert(r@.take(k + 1).last() == r@[k as int]);
            assert(d as int == delta_of(r@[k as int]));
        }
        acc = acc + d as u128;
        k += 1;
    }
    proof {
        assert(r@.take(n as int) =~= r@);
    }
    let total: u64 = if acc > u64::MAX as u128 {
        u64::MAX
    } else {
        acc as u64
    };
    let divisor: u64 = if total >= 1 {
        total
    } else {
        1
    };
    let ghost gt = total as int;
    let ghost gd = divisor as int;

    let mut lines: Vec<String> = Vec::new();
    let mut h = String::from_str("Total time: ");
    let v: u128 = total as u128 * 10_000 / freq as u128;
    push_fixed4(&mut h, v);
    h.append(" (CPU freq ");
    push_u64(&mut h, freq);
    h.append(")");
    lines.push(h);

    let mut k: usize = 0;
    while k < n
        invariant
            r.wf(),
            all_ended(r@),
            s == r@,
            n == r@.len(),
            k <= n,
            freq >= 1,
            gd >= 1,
            gt == sat_unsigned(sum_deltas(r@)),
            gd == (if gt >= 1 {
                gt
            } else {
                1
            }),
            divisor as int == gd,
            lines@.len() == k + 1,
            lines@[0]@ == stats_chars(r@, freq as int)[0],
            forall|j: int|
                0 <= j < k ==> (#[trigger] lines@[j + 1])@ == stats_chars(r@, freq as int)[j + 1],
        decreases n - k,
    {
        let t = r.trace_marks[k];
        proof {
            assert(t@.begin == r@[k as int].begin && t@.end == r@[k as int].end);
            assert((#[trigger] r@[k as int]).end != Option::<int>::None);
        }
        let d = t.delta();
        proof {
            assert(d as int == delta_of(r@[k as int]));
        }
        let mut line = String::from_str("  ");
        line.append(r.names[k].as_str());
        line.append(": ");
        push_u64(&mut line, d);
        line.append(" (");
        push_percent(&mut line, d as i128, divisor);
        line.append("%)");
        proof {
            assert(line@ =~= stats_chars(r@, freq as int)[k + 1]);
        }
        lines.push(line);
        k += 1;
    }
    proof {
        let dv = lines.deep_view();
        assert(dv.len() == n + 1);
        assert(forall|i: int| 0 <= i < lines@.len() ==> #[trigger] dv[i] == lines@[i]@);
        assert forall|i: int| 1 <= i < n + 1 implies dv[i] == stats_chars(r@, freq as int)[i] by {
            assert(lines@[(i - 1) + 1]@ == stats_chars(r@, freq as int)[(i - 1) + 1]);
        }
        assert(dv =~~= stats_chars(r@, freq as int));
    }
    lines
}

} // verus!
