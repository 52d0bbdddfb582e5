//! Exponential backoff shared by the remote-change loops.

use vstd::arithmetic::power2::{lemma2_to64, pow2};
use vstd::prelude::*;

use crate::time::Span;

verus! {

/// Highest exponent of the backoff.
pub const MAX_EXP: u32 = 6;

/// Exponential backoff shared by the remote-change loops: `base * 2^exp`,
/// with the exponent capped so a Hub that keeps failing with 401 (token
/// expired) or a transient status (429/5xx — polling harder only feeds the
/// storm and starves interactive lookups of quota) is retried at most every
/// `base * 64` (32 min for the 30s poll interval, ~10 min for the 10s
/// live-follow connect retry).
#[derive(Debug, Clone, Copy, PartialEq, Eq, Structural)]
pub struct Backoff {
    base: Span,
    exp: u32,
}

/// `base * 2^exp`, or the longest span where that is too long.
pub open spec fn backoff_nanos(base: Span, exp: nat) -> nat {
    if base.total() * pow2(exp) <= Span::longest().total() {
        base.total() * pow2(exp)
    } else {
        Span::longest().total()
    }
}

/// The level after one more failure.
pub open spec fn next_level(level: nat) -> nat {
    if level < MAX_EXP {
        level + 1
    } else {
        MAX_EXP as nat
    }
}

/// Waits grow with the level.
pub proof fn law_backoff_grows(base: Span, a: nat, b: nat)
    requires
        a <= b,
    ensures
        backoff_nanos(base, a) <= backoff_nanos(base, b),
{
    if a < b {
        vstd::arithmetic::power2::lemma_pow2_strictly_increases(a, b);
        assert(base.total() * pow2(a) <= base.total() * pow2(b)) by (nonlinear_arith)
            requires
                pow2(a) <= pow2(b),
        ;
    }
}

/// No wait is longer than the base 64 times over.
pub proof fn law_backoff_is_bounded(base: Span, level: nat)
    requires
        level <= MAX_EXP,
    ensures
        backoff_nanos(base, level) <= 64 * base.total(),
        next_level(level) <= MAX_EXP,
{
    law_backoff_grows(base, level, 6);
    lemma2_to64();
}

/// The first wait is the base itself, each further one is twice as long as the one
/// before it, up to 64 times the base, which the sixth failure leads to, and as far
/// as a span can go.
pub proof fn law_backoff_doubles(base: Span, level: nat)
    requires
        base.wf(),
        level <= 6,
    ensures
        backoff_nanos(base, 0) == base.total(),
        level < 6 && 2 * backoff_nanos(base, level) <= Span::longest().total() ==> backoff_nanos(
            base,
            next_level(level),
        ) == 2 * backoff_nanos(base, level),
        64 * base.total() <= Span::longest().total() ==> backoff_nanos(base, 6) == 64
            * base.total(),
        next_level(6) == 6,
        level < 6 ==> next_level(level) == level + 1,
{
    lemma2_to64();
    vstd::arithmetic::power2::lemma_pow2_unfold(level + 1);
    assert(base.total() * (2 * pow2(level)) == 2 * (base.total() * pow2(level)))
        by (nonlinear_arith);
    vstd::arithmetic::power2::lemma_pow2_pos(level);
}

impl Backoff {
    /// What every backoff counts from.
    pub closed spec fn base(self) -> Span {
        self.base
    }

    /// How many times the wait has doubled.
    pub closed spec fn level(self) -> nat {
        self.exp as nat
    }

    /// Whether the level is within bounds.
    pub closed spec fn wf(self) -> bool {
        self.exp <= MAX_EXP && self.base.wf()
    }

    pub fn new(base: Span) -> (b: Backoff)
        requires
            base.wf(),
        ensures
            b.wf(),
            b.base() == base,
            b.level() == 0,
    {
        Backoff { base, exp: 0 }
    }

    fn scaled(&self, exp: u32) -> (d: Span)
        requires
            self.wf(),
            exp <= MAX_EXP,
        ensures
            d.wf(),
            d.total() == backoff_nanos(self.base(), exp as nat),
    {
        proof {
            lemma2_to64();
            assert(1u32 << exp <= 64) by (bit_vector)
                requires
                    exp <= 6,
            ;
            vstd::arithmetic::power2::lemma_pow2_pos(exp as nat);
            if exp < 6 {
                vstd::arithmetic::power2::lemma_pow2_strictly_increases(exp as nat, 6);
            }
            vstd::bits::lemma_u32_shl_is_mul(1, exp);
        }
        self.base.saturating_mul(1u32 << exp)
    }

    /// Delay for the next attempt at the current level.
    pub fn delay(&self) -> (d: Span)
        requires
            self.wf(),
        ensures
            d.wf(),
            d.total() == backoff_nanos(self.base(), self.level()),
    {
        self.scaled(self.exp)
    }

    /// Delay to sleep now, then escalate for the attempt after it.
    pub fn next(&mut self) -> (d: Span)
        requires
            old(self).wf(),
        ensures
            final(self).wf(),
            final(self).base() == old(self).base(),
            final(self).level() == next_level(old(self).level()),
            d.wf(),
            d.total() == backoff_nanos(old(self).base(), old(self).level()),
    {
        let delay: Span = self.delay();
        if self.exp < MAX_EXP {
            self.exp = self.exp + 1;
        }
        delay
    }

    /// Ceiling for server-hinted waits in this loop.
    pub fn max_delay(&self) -> (d: Span)
        requires
            self.wf(),
        ensures
            d.wf(),
            d.total() == backoff_nanos(self.base(), MAX_EXP as nat),
    {
        self.scaled(MAX_EXP)
    }

    /// Whether the wait is longer than the base.
    pub fn is_backing_off(&self) -> (r: bool)
        ensures
            r == (self.level() > 0),
    {
        self.exp > 0
    }

    /// Back to the base.
    pub fn reset(&mut self)
        requires
            old(self).wf(),
        ensures
            final(self).wf(),
            final(self).base() == old(self).base(),
            final(self).level() == 0,
    {
        self.exp = 0;
    }
}

} // verus!
