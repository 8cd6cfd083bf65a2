//! Lengths of time as whole seconds and nanoseconds.

use vstd::prelude::*;

verus! {

pub const NANOS_PER_SEC: u32 = 1_000_000_000;

/// A length of time: `secs` whole seconds and `nanos` nanoseconds beyond them.
///
/// Points in time are spans too, counted from the moment the test was set up.
#[derive(Clone, Copy, Debug, PartialEq, Eq, Structural)]
pub struct TimeSpan {
    pub secs: u64,
    pub nanos: u32,
}

impl TimeSpan {
    /// The nanoseconds stay below one second.
    pub open spec fn wf(self) -> bool {
        self.nanos < NANOS_PER_SEC
    }

    /// The whole length in nanoseconds.
    pub open spec fn total_nanos(self) -> int {
        self.secs * NANOS_PER_SEC + self.nanos
    }

    /// The length `nanos` has a span of its own.
    pub open spec fn representable(nanos: int) -> bool {
        0 <= nanos <= u64::MAX * NANOS_PER_SEC + (NANOS_PER_SEC - 1)
    }

    /// The span that is `nanos` nanoseconds long.
    pub open spec fn of_nanos(nanos: int) -> TimeSpan {
        TimeSpan {
            secs: (nanos / NANOS_PER_SEC as int) as u64,
            nanos: (nanos % NANOS_PER_SEC as int) as u32,
        }
    }

    /// A span of `secs` seconds and `nanos` nanoseconds, where whole seconds
    /// among the nanoseconds are carried over.
    pub fn new(secs: u64, nanos: u32) -> (span: TimeSpan)
        requires
            TimeSpan::representable(secs * NANOS_PER_SEC + nanos),
        ensures
            span.wf(),
            span.total_nanos() == secs * NANOS_PER_SEC + nanos,
    {
        TimeSpan { secs: secs + (nanos / NANOS_PER_SEC) as u64, nanos: nanos % NANOS_PER_SEC }
    }

    pub fn from_secs(secs: u64) -> (span: TimeSpan)
        ensures
            span.wf(),
            span.total_nanos() == secs * NANOS_PER_SEC,
    {
        TimeSpan { secs, nanos: 0 }
    }

    pub fn from_millis(millis: u64) -> (span: TimeSpan)
        ensures
            span.wf(),
            span.total_nanos() == millis * 1_000_000,
    {
        TimeSpan { secs: millis / 1000, nanos: (millis % 1000) as u32 * 1_000_000 }
    }

    pub fn from_nanos(nanos: u64) -> (span: TimeSpan)
        ensures
            span.wf(),
            span.total_nanos() == nanos,
    {
        TimeSpan { secs: nanos / 1_000_000_000, nanos: (nanos % 1_000_000_000) as u32 }
    }

    /// Whether this span is strictly shorter than `other`.
    pub fn is_shorter_than(&self, other: &TimeSpan) -> (shorter: bool)
        requires
            self.wf(),
            other.wf(),
        ensures
            shorter == (self.total_nanos() < other.total_nanos()),
    {
        self.secs < other.secs || (self.secs == other.secs && self.nanos < other.nanos)
    }

    /// Both spans one after the other.
    pub fn plus(&self, other: &TimeSpan) -> (sum: TimeSpan)
        requires
            self.wf(),
            other.wf(),
            TimeSpan::representable(self.total_nanos() + other.total_nanos()),
        ensures
            sum.wf(),
            sum.total_nanos() == self.total_nanos() + other.total_nanos(),
    {
        let nanos: u32 = self.nanos + other.nanos;
        if nanos >= NANOS_PER_SEC {
            TimeSpan { secs: self.secs + other.secs + 1, nanos: nanos - NANOS_PER_SEC }
        } else {
            TimeSpan { secs: self.secs + other.secs, nanos }
        }
    }

    /// What is left of this span after `other`.
    pub fn minus(&self, other: &TimeSpan) -> (rest: TimeSpan)
        requires
            self.wf(),
            other.wf(),
            other.total_nanos() <= self.total_nanos(),
        ensures
            rest.wf(),
            rest.total_nanos() == self.total_nanos() - other.total_nanos(),
    {
        if self.nanos >= other.nanos {
            TimeSpan { secs: self.secs - other.secs, nanos: self.nanos - other.nanos }
        } else {
            TimeSpan {
                secs: self.secs - other.secs - 1,
                nanos: self.nanos + NANOS_PER_SEC - other.nanos,
            }
        }
    }
}

/// The span of a given length has that length, and every span is the one of
/// its own length.
pub proof fn law_span_of_nanos(nanos: int, span: TimeSpan)
    requires
        TimeSpan::representable(nanos),
        span.wf(),
    ensures
        TimeSpan::of_nanos(nanos).wf(),
        TimeSpan::of_nanos(nanos).total_nanos() == nanos,
        TimeSpan::representable(span.total_nanos()),
        TimeSpan::of_nanos(span.total_nanos()) == span,
{
}

/// An empty span has no length, a second more makes it a billion nanoseconds
/// longer, a nanosecond more makes it one longer, and a span in order has fewer
/// than a billion nanoseconds beyond its seconds.
pub proof fn law_length_of_span(span: TimeSpan)
    ensures
        (TimeSpan { secs: 0, nanos: 0 }).total_nanos() == 0,
        span.secs < u64::MAX ==> (TimeSpan { secs: (span.secs + 1) as u64, ..span }).total_nanos()
            == span.total_nanos() + 1_000_000_000,
        span.nanos < u32::MAX ==> (TimeSpan {
            nanos: (span.nanos + 1) as u32,
            ..span
        }).total_nanos() == span.total_nanos() + 1,
        span.wf() <==> span.nanos < 1_000_000_000,
{
}

/// A length is representable exactly if there is a span in order of that length.
pub proof fn law_representable_lengths(nanos: int)
    ensures
        TimeSpan::representable(nanos) <==> exists|span: TimeSpan|
            span.wf() && #[trigger] span.total_nanos() == nanos,
{
    if TimeSpan::representable(nanos) {
        let span = TimeSpan::of_nanos(nanos);
        law_span_of_nanos(nanos, TimeSpan { secs: 0, nanos: 0 });
        assert(span.wf() && span.total_nanos() == nanos);
    }
}

} // verus!
