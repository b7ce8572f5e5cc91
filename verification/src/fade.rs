//! Fade curve selectors and the exact arithmetic behind the smooth curve.

use vstd::prelude::*;

verus! {

/// Fade curves.
///
/// `Power` is the equal-power curve `sin(pi/2 * x)`: when the fade out of one
/// event coincides with the fade in of another, the two gains sum to constant
/// power. `Smooth` is the fifth-order smoothstep `x^3 (6 x^2 - 15 x + 10)`,
/// the default curve for solo fades.
///
/// The curves are evaluated in floating point by the rendering layer; this
/// crate only routes the selector and the exact rational phase at which the
/// curve is to be read.
#[derive(Clone, Copy, PartialEq, Eq, Structural, Debug, Default)]
pub enum Fade {
    /// Equal power fade.
    Power,
    /// Smooth polynomial fade.
    #[default]
    Smooth,
}

/// Numerator of the smooth fade curve read at the rational phase `p / q`:
/// the curve value is `smooth_num(p, q) / q^5`, which expands
/// `(p/q)^3 * (6 (p/q)^2 - 15 (p/q) + 10)`.
pub open spec fn smooth_num(p: int, q: int) -> int {
    p * p * p * (6 * p * p - 15 * p * q + 10 * q * q)
}

/// The smooth fade curve starts at zero: its value at phase `0 / q` is `0`.
pub proof fn lemma_smooth_at_zero(q: int)
    requires
        q > 0,
    ensures
        smooth_num(0, q) == 0,
{
    assert(smooth_num(0, q) == 0) by (nonlinear_arith);
}

/// The smooth fade curve ends at one: its value at phase `q / q` is
/// `q^5 / q^5 == 1`.
pub proof fn lemma_smooth_at_one(q: int)
    requires
        q > 0,
    ensures
        smooth_num(q, q) == q * q * q * q * q,
{
    assert(smooth_num(q, q) == q * q * q * q * q) by (nonlinear_arith);
}

/// The smooth fade curve never leaves `[0, 1]` and is monotone
/// non-decreasing: on a common denominator `q`, a later phase never reads a
/// smaller value, and every value lies between the endpoint values zero
/// and one.
pub proof fn lemma_smooth_monotone(p1: int, p2: int, q: int)
    requires
        0 <= p1 <= p2 <= q,
        q > 0,
    ensures
        smooth_num(p1, q) <= smooth_num(p2, q),
        0 <= smooth_num(p1, q),
        smooth_num(p2, q) <= q * q * q * q * q,
{
    lemma_smooth_step(p1, p2, q);
    lemma_smooth_step(0, p1, q);
    lemma_smooth_step(p2, q, q);
    lemma_smooth_at_zero(q);
    lemma_smooth_at_one(q);
}

/// Helper for the monotonicity law: the divided difference of the smooth
/// polynomial is non-negative on `[0, q]`.
proof fn lemma_smooth_step(a: int, b: int, q: int)
    requires
        0 <= a <= b <= q,
        q > 0,
    ensures
        smooth_num(a, q) <= smooth_num(b, q),
    decreases b - a,
{
    if a < b {
        lemma_smooth_adjacent(a, q);
        lemma_smooth_step(a + 1, b, q);
    }
}

/// One unit step of the smooth polynomial's numerator never decreases.
proof fn lemma_smooth_adjacent(p: int, q: int)
    requires
        0 <= p < q,
    ensures
        smooth_num(p, q) <= smooth_num(p + 1, q),
{
    assert(smooth_num(p + 1, q) - smooth_num(p, q) >= 0) by (nonlinear_arith)
        requires
            0 <= p < q,
    ;
}

} // verus!
