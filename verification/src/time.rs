//! Spans of time, to the nanosecond.

use vstd::prelude::*;

verus! {

/// A span of time, or a point in time as the span since the Unix epoch.
#[derive(Debug, Clone, Copy, PartialEq, Eq, Structural)]
pub struct Span {
    pub secs: u64,
    pub nanos: u32,
}

/// Nanoseconds in a second.
pub const NANOS_PER_SEC: u32 = 1_000_000_000;

impl Span {
    /// Whether the sub-second part is less than a second.
    pub open spec fn wf(self) -> bool {
        self.nanos < NANOS_PER_SEC
    }

    /// The length of this span in nanoseconds.
    pub open spec fn total(self) -> nat {
        self.secs as nat * 1_000_000_000 + self.nanos as nat
    }

    /// A span of whole seconds.
    pub fn from_secs(secs: u64) -> (s: Span)
        ensures
            s.wf(),
            s.secs == secs,
            s.nanos == 0,
            s.total() == secs * 1_000_000_000,
    {
        Span { secs, nanos: 0 }
    }

    /// A span of whole milliseconds.
    pub fn from_millis(millis: u64) -> (s: Span)
        ensures
            s.wf(),
            s.total() == millis * 1_000_000,
    {
        Span { secs: millis / 1000, nanos: (millis % 1000) as u32 * 1_000_000 }
    }

    /// Whether this span is at least as long as `other`.
    pub fn at_least(&self, other: &Span) -> (r: bool)
        requires
            self.wf(),
            other.wf(),
        ensures
            r == (self.total() >= other.total()),
    {
        self.secs > other.secs || (self.secs == other.secs && self.nanos >= other.nanos)
    }

    /// The longest span there is.
    pub open spec fn longest() -> Span {
        Span { secs: u64::MAX, nanos: 999_999_999 }
    }

    /// `n` times this span, or the longest span where that is too long.
    pub fn saturating_mul(&self, n: u32) -> (s: Span)
        requires
            self.wf(),
        ensures
            s.wf(),
            s.total() == if self.total() * n as nat <= Span::longest().total() {
                self.total() * n as nat
            } else {
                Span::longest().total()
            },
    {
        assert(self.nanos * n <= 1_000_000_000 * 0xFFFF_FFFF) by (nonlinear_arith)
            requires
                self.nanos <= 1_000_000_000,
                n <= 0xFFFF_FFFF,
        ;
        let nanos: u64 = self.nanos as u64 * n as u64;
        let carry: u64 = nanos / 1_000_000_000;
        let rest: u32 = (nanos % 1_000_000_000) as u32;
        let ghost whole: int = self.secs * n + carry;
        proof {
            assert(self.total() * n == self.secs * n * 1_000_000_000 + self.nanos * n)
                by (nonlinear_arith)
                requires
                    self.total() == self.secs * 1_000_000_000 + self.nanos,
            ;
            assert(self.nanos * n == carry * 1_000_000_000 + rest);
            assert(self.total() * n == whole * 1_000_000_000 + rest);
        }
        match self.secs.checked_mul(n as u64) {
            Some(secs) => match secs.checked_add(carry) {
                Some(secs) => Span { secs, nanos: rest },
                None => Span { secs: u64::MAX, nanos: 999_999_999 },
            },
            None => Span { secs: u64::MAX, nanos: 999_999_999 },
        }
    }
}

/// A span of milliseconds is that many milliseconds, no more and no less.
pub proof fn law_milliseconds(millis: u64, s: Span)
    requires
        call_ensures(Span::from_millis, (millis,), s),
    ensures
        s.secs == millis / 1000,
        s.nanos == (millis % 1000) * 1_000_000,
{
}

/// Of two spans one is at least as long as the other, and both are only where they
/// are the same span.
pub proof fn law_spans_are_ordered(a: Span, b: Span, ab: bool, ba: bool)
    requires
        a.wf(),
        b.wf(),
        call_ensures(Span::at_least, (&a, &b), ab),
        call_ensures(Span::at_least, (&b, &a), ba),
    ensures
        ab || ba,
        ab && ba <==> a.secs == b.secs && a.nanos == b.nanos,
        a.secs > b.secs ==> ab && !ba,
        a.secs == b.secs && a.nanos > b.nanos ==> ab && !ba,
{
}

/// A multiple of a span is that many times as long, and never past the longest
/// span.
pub proof fn law_multiples(a: Span, n: u32, s: Span)
    requires
        a.wf(),
        call_ensures(Span::saturating_mul, (&a, n), s),
    ensures
        n == 0 ==> s.secs == 0 && s.nanos == 0,
        n == 1 ==> s == a,
        a.total() * n <= Span::longest().total() ==> s.total() == a.total() * n,
        a.total() * n > Span::longest().total() ==> s.secs == 0xFFFF_FFFF_FFFF_FFFF && s.nanos
            == 999_999_999,
{
    let t = a.total();
    assert(t * 0 == 0 && t * 1 == t) by (nonlinear_arith);
    if n == 0 {
        assert(t * n == 0) by (nonlinear_arith)
            requires
                n == 0,
        ;
    }
    if n == 1 {
        assert(t * n == t) by (nonlinear_arith)
            requires
                n == 1,
        ;
    }
}

} // verus!
