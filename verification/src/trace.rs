//! Events recorded by one execution of the compiler, and the spans they cover.

use vstd::prelude::*;

use crate::text::str_eq;

verus! {

/// An inclusive byte-offset range into the virtual concatenation of all
/// project source files.  A span is never negative-length: the low bound
/// stays at or below the high bound.
#[derive(Debug, Clone, Copy, PartialEq, Eq, Structural)]
pub struct Span(pub u32, pub u32);

impl Span {
    /// True when `self` and `a` share at least one offset.
    pub open spec fn spec_intersects(self, a: Span) -> bool {
        a.0 <= self.1 && a.1 >= self.0
    }

    /// The overlapping part of two spans, if there is one.
    pub open spec fn spec_intersection(self, other: Span) -> Option<Span> {
        let low = if self.0 >= other.0 {
            self.0
        } else {
            other.0
        };
        let high = if self.1 <= other.1 {
            self.1
        } else {
            other.1
        };
        if low <= high {
            Some(Span(low, high))
        } else {
            None
        }
    }

    pub fn new(low: u32, high: u32) -> (r: Span)
        ensures
            r == Span(low, high),
    {
        Span(low, high)
    }

    /// Returns the infimum of the span.
    pub fn low(&self) -> (r: u32)
        ensures
            r == self.0,
    {
        self.0
    }

    /// Returns the supremum of the span.
    pub fn high(&self) -> (r: u32)
        ensures
            r == self.1,
    {
        self.1
    }

    /// Tests whether two spans have an intersection.
    pub fn intersects(&self, a: &Span) -> (r: bool)
        ensures
            r == self.spec_intersects(*a),
    {
        a.0 <= self.1 && a.1 >= self.0
    }

    /// Returns the overlapping part of two spans, or `None` when they are
    /// disjoint.
    pub fn intersection(&self, other: &Span) -> (r: Option<Span>)
        ensures
            r == self.spec_intersection(*other),
    {
        let low: u32 = if self.0 >= other.0 {
            self.0
        } else {
            other.0
        };
        let high: u32 = if self.1 <= other.1 {
            self.1
        } else {
            other.1
        };
        if low <= high {
            Some(Span(low, high))
        } else {
            None
        }
    }
}

/// One instrumentation record emitted by a compiler stage.
///
/// The outcome of an event is one of three mutually exclusive states:
/// a recorded success text in `ok`, a recorded failure text in `error`,
/// or neither (a no-op: the instrumentation point was reached but no
/// result was recorded).
#[derive(Debug)]
pub struct Event {
    /// Identifier, unique within one run.
    pub id: u64,
    /// Explicit hierarchy hint: the identifier of the enclosing event.
    pub parent_id: Option<u64>,
    /// The span of source text this event covers.
    pub source: Span,
    /// Which compiler phase emitted the event.
    pub stage: String,
    /// Success text, when the event recorded a result.
    pub ok: Option<String>,
    /// Failure text, when the event recorded an error.
    pub error: Option<String>,
    /// A span whose value was used as context when computing this event.
    pub ref_spans: Option<Span>,
}

impl Event {
    /// True when the event recorded neither a success nor a failure.
    pub open spec fn is_noop(self) -> bool {
        self.ok is None && self.error is None
    }

    /// True when the event's span and the query range `[low, high]` share
    /// at least one offset; both ranges are inclusive.
    pub open spec fn spec_intersect(self, low: u32, high: u32) -> bool {
        self.source.0 <= high && low <= self.source.1
    }

    pub fn intersect(&self, low: u32, high: u32) -> (r: bool)
        ensures
            r == self.spec_intersect(low, high),
    {
        self.source.0 <= high && low <= self.source.1
    }
}

impl Clone for Event {
    fn clone(&self) -> (r: Event)
        ensures
            r == *self,
    {
        Event {
            id: self.id,
            parent_id: self.parent_id,
            source: self.source,
            stage: self.stage.clone(),
            ok: clone_opt_string(&self.ok),
            error: clone_opt_string(&self.error),
            ref_spans: self.ref_spans,
        }
    }
}

/// Clones an optional text, keeping its value exactly.
fn clone_opt_string(a: &Option<String>) -> (r: Option<String>)
    ensures
        r == *a,
{
    match a {
        Some(s) => Some(s.clone()),
        None => None,
    }
}

/// The ordered, immutable sequence of events from one compiler run.
pub struct Trace {
    pub events: Vec<Event>,
}

impl Trace {
    /// Returns references to every event whose span meets the query range
    /// `[low, high)`, in event order.
    pub fn find(&self, low: u32, high: u32) -> (r: Vec<&Event>)
        ensures
            r@.map_values(|e: &Event| *e) == self.events@.filter(
                |e: Event| e.spec_intersect(low, high),
            ),
    {
        let mut results: Vec<&Event> = vec![];
        let n = self.events.len();
        for i in 0..n
            invariant
                n == self.events@.len(),
                results@.map_values(|e: &Event| *e) == self.events@.subrange(0, i as int).filter(
                    |e: Event| e.spec_intersect(low, high),
                ),
        {
            let ghost pre = self.events@.subrange(0, i as int);
            let e = &self.events[i];
            if e.intersect(low, high) {
                results.push(e);
            }
            proof {
                let post = self.events@.subrange(0, i + 1 as int);
                assert(post.drop_last() =~= pre);
                assert(post.last() == self.events@[i as int]);
                reveal(Seq::filter);
                assert(post.filter(|e: Event| e.spec_intersect(low, high))
                    =~= pre.filter(|e: Event| e.spec_intersect(low, high))
                    + if self.events@[i as int].spec_intersect(low, high) {
                        seq![self.events@[i as int]]
                    } else {
                        Seq::<Event>::empty()
                    });
                assert(results@.map_values(|e: &Event| *e) =~= post.filter(
                    |e: Event| e.spec_intersect(low, high),
                ));
            }
        }
        proof {
            assert(self.events@.subrange(0, n as int) =~= self.events@);
        }
        results
    }

    /// Returns copies of every event the given compiler stage emitted, in
    /// event order: the per-stage sequence the graph builder consumes.
    pub fn stage_events(&self, stage: &str) -> (r: Vec<Event>)
        ensures
            r@ == self.events@.filter(|e: Event| e.stage@ == stage@),
    {
        let mut results: Vec<Event> = Vec::new();
        let n = self.events.len();
        for i in 0..n
            invariant
                n == self.events@.len(),
                results@ == self.events@.subrange(0, i as int).filter(
                    |e: Event| e.stage@ == stage@,
                ),
        {
            let ghost pre = self.events@.subrange(0, i as int);
            let e = &self.events[i];
            if str_eq(e.stage.as_str(), stage) {
                results.push(e.clone());
            }
            proof {
                let post = self.events@.subrange(0, i + 1 as int);
                assert(post.drop_last() =~= pre);
                assert(post.last() == self.events@[i as int]);
                reveal(Seq::filter);
                assert(post.filter(|e: Event| e.stage@ == stage@) =~= pre.filter(
                    |e: Event| e.stage@ == stage@,
                )
                    + if self.events@[i as int].stage@ == stage@ {
                        seq![self.events@[i as int]]
                    } else {
                        Seq::<Event>::empty()
                    });
                assert(results@ =~= post.filter(|e: Event| e.stage@ == stage@));
            }
        }
        proof {
            assert(self.events@.subrange(0, n as int) =~= self.events@);
        }
        results
    }
}

} // verus!
