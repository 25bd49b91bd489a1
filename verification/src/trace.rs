//! Span identities and per-span statistics.
//!
//! A span is named by the enclosing function plus a kind: the whole
//! function, a named loop inside it, or a named section inside it. The
//! identity is structural: two identities with the same fields name the
//! same span, however they were constructed.

use vstd::prelude::*;
use vstd::string::StringExecFns;

verus! {

/// What kind of region a span covers.
#[derive(Debug, Hash)]
pub enum TraceType {
    /// The whole body of the enclosing function.
    Fn,
    /// A named loop inside the enclosing function.
    Loop(String),
    /// A named section inside the enclosing function.
    Section(String),
}

/// Mathematical image of a [`TraceType`]: the kind with its label as a
/// character sequence.
pub enum TraceTypeView {
    Fn,
    Loop(Seq<char>),
    Section(Seq<char>),
}

impl View for TraceType {
    type V = TraceTypeView;

    open spec fn view(&self) -> TraceTypeView {
        match self {
            TraceType::Fn => TraceTypeView::Fn,
            TraceType::Loop(l) => TraceTypeView::Loop(l@),
            TraceType::Section(s) => TraceTypeView::Section(s@),
        }
    }
}

impl Clone for TraceType {
    fn clone(&self) -> (r: Self)
        ensures
            r == *self,
    {
        match self {
            TraceType::Fn => TraceType::Fn,
            TraceType::Loop(l) => TraceType::Loop(l.clone()),
            TraceType::Section(s) => TraceType::Section(s.clone()),
        }
    }
}

impl PartialEq for TraceType {
    fn eq(&self, other: &Self) -> (r: bool) {
        match (self, other) {
            (TraceType::Fn, TraceType::Fn) => true,
            (TraceType::Loop(a), TraceType::Loop(b)) => a.eq(b),
            (TraceType::Section(a), TraceType::Section(b)) => a.eq(b),
            _ => false,
        }
    }
}

impl vstd::std_specs::cmp::PartialEqSpecImpl for TraceType {
    open spec fn obeys_eq_spec() -> bool {
        true
    }

    open spec fn eq_spec(&self, other: &Self) -> bool {
        self@ == other@
    }
}

/// The identity of a span: the enclosing function's name plus the kind of
/// region. Equality is structural on both fields.
#[derive(Debug, Hash)]
pub struct TraceId {
    pub enclosing_function_name: String,
    pub ty: TraceType,
}

/// Mathematical image of a [`TraceId`].
pub struct TraceIdView {
    pub enclosing_function_name: Seq<char>,
    pub ty: TraceTypeView,
}

impl View for TraceId {
    type V = TraceIdView;

    open spec fn view(&self) -> TraceIdView {
        TraceIdView { enclosing_function_name: self.enclosing_function_name@, ty: self.ty@ }
    }
}

impl Clone for TraceId {
    fn clone(&self) -> (r: Self)
        ensures
            r == *self,
    {
        TraceId { enclosing_function_name: self.enclosing_function_name.clone(), ty: self.ty.clone() }
    }
}

impl PartialEq for TraceId {
    fn eq(&self, other: &Self) -> (r: bool) {
        self.enclosing_function_name.eq(&other.enclosing_function_name) && self.ty == other.ty
    }
}

impl vstd::std_specs::cmp::PartialEqSpecImpl for TraceId {
    open spec fn obeys_eq_spec() -> bool {
        true
    }

    open spec fn eq_spec(&self, other: &Self) -> bool {
        self@ == other@
    }
}

/// The display form of a span identity: `<function>::fn`,
/// `<function>::<loop-name>::loop`, or `<function>::<section-name>::section`.
pub open spec fn display_of(v: TraceIdView) -> Seq<char> {
    match v.ty {
        TraceTypeView::Fn => v.enclosing_function_name + "::fn"@,
        TraceTypeView::Loop(l) => v.enclosing_function_name + "::"@ + l + "::loop"@,
        TraceTypeView::Section(s) => v.enclosing_function_name + "::"@ + s + "::section"@,
    }
}

impl TraceId {
    /// Renders the identity in its display form.
    pub fn display_name(&self) -> (r: String)
        ensures
            r@ == display_of(self@),
    {
        let mut s = self.enclosing_function_name.clone();
        match &self.ty {
            TraceType::Fn => {
                s.append("::fn");
            },
            TraceType::Loop(l) => {
                s.append("::");
                s.append(l.as_str());
                s.append("::loop");
            },
            TraceType::Section(n) => {
                s.append("::");
                s.append(n.as_str());
                s.append("::section");
            },
        }
        s
    }
}

/// Accumulated statistics for one span identity.
///
/// `elapsed_exclusive` is signed: while a child span is open, the time the
/// child will claim has provisionally been counted in the parent, and the
/// correction at the child's exit can transiently drive the parent's own
/// count below zero.
#[derive(Debug, Clone, Copy, PartialEq, Eq, Structural)]
pub struct Trace {
    /// Cycles spent in this span's own code, excluding nested spans.
    pub elapsed_exclusive: i64,
    /// Cycles of the most recent completed invocation including nested
    /// spans, chained onto the accumulation before that invocation began.
    pub elapsed_inclusive: u64,
    /// Number of completed enter/exit pairs for this identity.
    pub hit_count: usize,
    /// Position in first-seen order, assigned at first entry, never changed.
    pub order: usize,
}

impl Trace {
    /// A fresh statistics record: all counters zero, first-seen position `order`.
    pub fn new(order: usize) -> (r: Trace)
        ensures
            r.elapsed_exclusive == 0,
            r.elapsed_inclusive == 0,
            r.hit_count == 0,
            r.order == order,
    {
        Trace { elapsed_exclusive: 0, elapsed_inclusive: 0, hit_count: 0, order }
    }
}

} // verus!
