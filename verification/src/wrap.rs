//! Comparison of TCP sequence numbers on the 32-bit wrapping ring.
//!
//! Every window comparison in the state machine goes through
//! `wrapping_lt` / `is_between_wrapped`; native integer comparison is never
//! used on sequence numbers.
use vstd::prelude::*;

verus! {

/// Number of steps needed to walk forward from `b` to reach `a` on the
/// 32-bit ring.
pub open spec fn seq_sub(a: u32, b: u32) -> u32 {
    if a >= b {
        (a - b) as u32
    } else {
        ((a + 0x1_0000_0000) - b) as u32
    }
}

/// `a + b` reduced to the 32-bit ring.
pub open spec fn seq_add(a: u32, b: u32) -> u32 {
    if a + b > 0xffff_ffff {
        ((a + b) - 0x1_0000_0000) as u32
    } else {
        (a + b) as u32
    }
}

/// `a` precedes `b` on the ring: `a` is closer to `b` going forward than
/// backward.
pub open spec fn spec_wrapping_lt(a: u32, b: u32) -> bool {
    seq_sub(a, b) > 0x8000_0000
}

/// `x` lies strictly between `start` and `end` on the ring.
pub open spec fn spec_between(x: u32, start: u32, end: u32) -> bool {
    spec_wrapping_lt(start, x) && spec_wrapping_lt(x, end)
}

/// Comparison of wrapping sequence numbers.
pub trait Wrap {
    fn wrapping_lt(&self, rhs: u32) -> bool;

    fn is_between_wrapped(&self, start: u32, end: u32) -> bool;
}

impl Wrap for u32 {
    fn wrapping_lt(&self, rhs: u32) -> (r: bool)
        ensures
            r == spec_wrapping_lt(*self, rhs),
    {
        self.wrapping_sub(rhs) > 0x8000_0000
    }

    fn is_between_wrapped(&self, start: u32, end: u32) -> (r: bool)
        ensures
            r == spec_between(*self, start, end),
    {
        start.wrapping_lt(*self) && self.wrapping_lt(end)
    }
}

/// Walking forward from `b` by fewer than 2^32 steps reaches `a` strictly
/// before `c`, exactly when `a` lies wrap-wise between `b` and `c` --
/// provided the span from `b` to `c` is at most half the ring.
pub proof fn lemma_between_iff_forward(a: u32, b: u32, c: u32)
    requires
        seq_sub(c, b) <= 0x8000_0000,
    ensures
        spec_between(a, b, c) <==> (0 < seq_sub(a, b) && seq_sub(a, b) < seq_sub(c, b)),
{
}

/// `wrapping_lt` is anti-symmetric: two distinct numbers never precede each
/// other both ways (and a number never precedes itself).
pub proof fn lemma_wrapping_lt_antisym(a: u32, b: u32)
    ensures
        !(spec_wrapping_lt(a, b) && spec_wrapping_lt(b, a)),
{
}

/// On any half-ring of width 2^31, `wrapping_lt` agrees with the numeric
/// order of the distances from the half-ring's base.
pub proof fn lemma_wrapping_lt_numeric(a: u32, b: u32, base: u32)
    requires
        seq_sub(a, base) < 0x8000_0000,
        seq_sub(b, base) < 0x8000_0000,
    ensures
        spec_wrapping_lt(a, b) <==> seq_sub(a, base) < seq_sub(b, base),
{
}

/// When both numbers already lie in a half-ring that does not wrap past
/// zero, `wrapping_lt` is plain numeric `<`.
pub proof fn lemma_wrapping_lt_plain(a: u32, b: u32, base: u32)
    requires
        base <= a < base + 0x8000_0000,
        base <= b < base + 0x8000_0000,
    ensures
        spec_wrapping_lt(a, b) <==> a < b,
{
}

/// Adding `k` and measuring from `b` commutes, as long as the distance does
/// not lap the ring.
pub proof fn lemma_sub_after_add(a: u32, b: u32, k: u32)
    requires
        seq_sub(a, b) + k <= 0xffff_ffff,
    ensures
        seq_sub(seq_add(a, k), b) == seq_sub(a, b) + k,
{
}

/// Walking forward from `b` by the distance to `a` lands on `a`.
pub proof fn lemma_sub_then_add(a: u32, b: u32)
    ensures
        seq_add(b, seq_sub(a, b)) == a,
{
}

/// Moving the base forward by `d` shortens the distance by `d`, as long
/// as `d` does not pass `a`.
pub proof fn lemma_sub_sub(a: u32, b: u32, d: u32)
    requires
        d <= seq_sub(a, b),
    ensures
        seq_sub(a, seq_add(b, d)) == seq_sub(a, b) - d,
{
}

} // verus!
