//! Affine priority functions and their crossing queries.
//!
//! An [`AffFunction`] maps a clock time `t` to the exact integer value
//! `slope * (t + x_shift)`.  Two such functions with different slopes cross at
//! most once; the `lt_until` / `le_until` queries report the first integer
//! time at which the corresponding order relation stops holding, which is what
//! a kinetic structure uses as a certificate expiry.

use vstd::arithmetic::div_mod::lemma_fundamental_div_mod;
use vstd::prelude::*;

verus! {

/// A priority that is an affine function of time: its value at time `t` is
/// `slope * (t + x_shift)`.
///
/// The time convention is fixed as follows: `x_shift` moves the time origin,
/// so the function is anchored at `-x_shift` (its value is zero when
/// `t == -x_shift`), and every query (`eval`, `lt_until`, `le_until`) speaks
/// of absolute times, never of offsets relative to either operand.
#[derive(Clone, Copy, Debug, PartialEq, Eq, Structural)]
pub struct AffFunction {
    pub slope: i128,
    pub x_shift: i64,
}

/// The exact mathematical value of `f` at time `t`.
pub open spec fn aff_at(f: AffFunction, t: int) -> int {
    (f.slope as int) * (t + f.x_shift as int)
}

/// `f` is strictly below `g` at time `t`.
pub open spec fn lt_at(f: AffFunction, g: AffFunction, t: int) -> bool {
    aff_at(f, t) < aff_at(g, t)
}

/// `f` is below or equal to `g` at time `t`.
pub open spec fn le_at(f: AffFunction, g: AffFunction, t: int) -> bool {
    aff_at(f, t) <= aff_at(g, t)
}

/// Slopes no larger in magnitude than `i64::MAX` keep every evaluation at an
/// `i64` time, and every crossing computation between two such functions,
/// within `i128`.
pub open spec fn bounded(f: AffFunction) -> bool {
    -(i64::MAX as int) <= f.slope as int <= i64::MAX as int
}

/// The slope difference and the cross products of a crossing query between
/// `f` and `g` stay strictly within `i128`, so the query can be computed
/// exactly.
pub open spec fn until_ok(f: AffFunction, g: AffFunction) -> bool {
    let pf = (f.slope as int) * (f.x_shift as int);
    let pg = (g.slope as int) * (g.x_shift as int);
    &&& i128::MIN as int <= f.slope as int - g.slope as int <= i128::MAX as int
    &&& -(i128::MAX as int) <= pf <= i128::MAX as int
    &&& -(i128::MAX as int) <= pg <= i128::MAX as int
    &&& -(i128::MAX as int) < pg - pf < i128::MAX as int
}

/// Bounded products: from `|a| <= ma` and `|b| <= mb` follows
/// `|a * b| <= ma * mb`.
proof fn lemma_mul_bounds(a: int, b: int, ma: int, mb: int)
    requires
        0 <= ma,
        0 <= mb,
        -ma <= a <= ma,
        -mb <= b <= mb,
    ensures
        -(ma * mb) <= a * b <= ma * mb,
{
    assert(-(ma * mb) <= a * b <= ma * mb) by (nonlinear_arith)
        requires
            0 <= ma,
            0 <= mb,
            -ma <= a <= ma,
            -mb <= b <= mb,
    ;
}

/// Multiplying a non-negative factor into both sides keeps an inequality.
proof fn lemma_mul_mono(d: int, a: int, b: int)
    requires
        0 <= d,
        a <= b,
    ensures
        d * a <= d * b,
{
    assert(d * a <= d * b) by (nonlinear_arith)
        requires
            0 <= d,
            a <= b,
    ;
}

/// The order between `f` and `g` at time `t`, written out as a single linear
/// inequality in `t`: with `d` the slope difference and `c` the cross-product
/// difference, `f` is below `g` exactly when `d * t` is below `c`.
proof fn lemma_cross_form(f: AffFunction, g: AffFunction, t: int)
    ensures
        lt_at(f, g, t) <==> (f.slope as int - g.slope as int) * t < (g.slope as int)
            * (g.x_shift as int) - (f.slope as int) * (f.x_shift as int),
        le_at(f, g, t) <==> (f.slope as int - g.slope as int) * t <= (g.slope as int)
            * (g.x_shift as int) - (f.slope as int) * (f.x_shift as int),
{
    let sf = f.slope as int;
    let xf = f.x_shift as int;
    let sg = g.slope as int;
    let xg = g.x_shift as int;
    assert((sf * (t + xf) < sg * (t + xg)) <==> ((sf - sg) * t < sg * xg - sf * xf))
        by (nonlinear_arith);
    assert((sf * (t + xf) <= sg * (t + xg)) <==> ((sf - sg) * t <= sg * xg - sf * xf))
        by (nonlinear_arith);
}

/// Evaluating a bounded function at any `i64` time stays within `i128`.
pub proof fn lemma_bounded_eval_fits(f: AffFunction, t: int)
    requires
        bounded(f),
        i64::MIN as int <= t <= i64::MAX as int,
    ensures
        i128::MIN as int <= aff_at(f, t) <= i128::MAX as int,
{
    lemma_mul_bounds(
        f.slope as int,
        t + f.x_shift as int,
        i64::MAX as int,
        0x1_0000_0000_0000_0000,
    );
}

/// A crossing query between two bounded functions never overflows.
pub proof fn lemma_bounded_until_ok(f: AffFunction, g: AffFunction)
    requires
        bounded(f),
        bounded(g),
    ensures
        until_ok(f, g),
{
    lemma_mul_bounds(f.slope as int, f.x_shift as int, i64::MAX as int, 0x8000_0000_0000_0000);
    lemma_mul_bounds(g.slope as int, g.x_shift as int, i64::MAX as int, 0x8000_0000_0000_0000);
}

/// Rounds the exact rational `c / d` up to the nearest integer, for `d >= 1`.
/// The two `ensures` clauses pin the result `r` down as the unique integer
/// with `d * (r - 1) < c <= d * r`.
fn ceil_div(c: i128, d: i128) -> (r: i128)
    requires
        1 <= d as int,
        -(i128::MAX as int) <= c as int,
    ensures
        (d as int) * (r as int) >= c as int,
        (d as int) * (r as int - 1) < c as int,
        -(i128::MAX as int) <= r as int <= i128::MAX as int,
{
    if c >= 0 {
        let cu: u128 = c as u128;
        let du: u128 = d as u128;
        let s: u128 = cu + (du - 1);
        let q: u128 = s / du;
        proof {
            lemma_fundamental_div_mod(s as int, du as int);
            assert(q as int <= cu as int) by (nonlinear_arith)
                requires
                    1 <= du as int,
                    0 <= cu as int,
                    0 <= q as int,
                    du as int * (q as int) <= cu as int + du as int - 1,
            ;
            assert(du as int * (q as int - 1) == du as int * (q as int) - du as int)
                by (nonlinear_arith);
        }
        q as i128
    } else {
        let nc: i128 = -c;
        let cu: u128 = nc as u128;
        let du: u128 = d as u128;
        let q: u128 = cu / du;
        proof {
            lemma_fundamental_div_mod(cu as int, du as int);
            assert(q as int <= cu as int) by (nonlinear_arith)
                requires
                    1 <= du as int,
                    0 <= q as int,
                    du as int * (q as int) <= cu as int,
            ;
            assert(du as int * (-(q as int)) == -(du as int * (q as int))) by (nonlinear_arith);
            assert(du as int * (-(q as int) - 1) == -(du as int * (q as int)) - du as int)
                by (nonlinear_arith);
            assert(du as int * (q as int + 1) == du as int * (q as int) + du as int)
                by (nonlinear_arith);
        }
        -(q as i128)
    }
}

/// Rounds the exact rational `c / d` down to the nearest integer, for
/// `d >= 1`.  The result `r` is the unique integer with
/// `d * r <= c < d * (r + 1)`.
fn floor_div(c: i128, d: i128) -> (r: i128)
    requires
        1 <= d as int,
        -(i128::MAX as int) <= c as int,
    ensures
        (d as int) * (r as int) <= c as int,
        (d as int) * (r as int + 1) > c as int,
        -(i128::MAX as int) <= r as int,
        (c as int) >= 0 ==> r as int <= c as int,
        (c as int) < 0 ==> r as int <= 0,
{
    if c >= 0 {
        let cu: u128 = c as u128;
        let du: u128 = d as u128;
        let q: u128 = cu / du;
        proof {
            lemma_fundamental_div_mod(cu as int, du as int);
            assert(q as int <= cu as int) by (nonlinear_arith)
                requires
                    1 <= du as int,
                    0 <= q as int,
                    du as int * (q as int) <= cu as int,
            ;
            assert(du as int * (q as int + 1) == du as int * (q as int) + du as int)
                by (nonlinear_arith);
        }
        q as i128
    } else {
        let nc: i128 = -c;
        let cu: u128 = nc as u128;
        let du: u128 = d as u128;
        let s: u128 = cu + (du - 1);
        let q: u128 = s / du;
        proof {
            lemma_fundamental_div_mod(s as int, du as int);
            assert(q as int <= cu as int) by (nonlinear_arith)
                requires
                    1 <= du as int,
                    1 <= cu as int,
                    0 <= q as int,
                    du as int * (q as int) <= cu as int + du as int - 1,
            ;
            assert(du as int * (q as int) >= cu as int) by (nonlinear_arith)
                requires
                    du as int * (q as int) == cu as int + du as int - 1 - ((s as int) % (du as int)),
                    0 <= (s as int) % (du as int) < du as int,
            ;
            assert(du as int * (-(q as int)) == -(du as int * (q as int))) by (nonlinear_arith);
            assert(du as int * (-(q as int) + 1) == -(du as int * (q as int)) + du as int)
                by (nonlinear_arith);
            assert(du as int * (q as int - 1) == du as int * (q as int) - du as int)
                by (nonlinear_arith);
        }
        -(q as i128)
    }
}

impl AffFunction {
    /// Builds the function whose value at time `t` is `slope * (t + x_shift)`.
    pub fn new(slope: i128, x_shift: i64) -> (r: AffFunction)
        ensures
            r == (AffFunction { slope, x_shift }),
    {
        AffFunction { slope, x_shift }
    }

    /// Exact evaluation at time `t`; the caller guarantees the product stays
    /// within `i128` (which [`lemma_bounded_eval_fits`] gives for every
    /// bounded function).
    pub fn eval(&self, t: i64) -> (r: i128)
        requires
            i128::MIN as int <= aff_at(*self, t as int) <= i128::MAX as int,
        ensures
            r as int == aff_at(*self, t as int),
    {
        let s: i128 = (t as i128) + (self.x_shift as i128);
        self.slope * s
    }

    /// The crossing query for the strict relation: when does `self < rhs`
    /// stop holding?
    ///
    /// Returns `Some(e)` exactly when `self` has the larger slope; then the
    /// strict relation holds at every time before `e` and fails at `e` and
    /// every later time.  Returns `None` when the slopes make the relation
    /// impossible to lose: once it holds at some time, it holds at every
    /// later time ("holds forever" if it holds now, "never held so far"
    /// otherwise, which the caller can tell apart by evaluating both
    /// functions at its own reference time).
    pub fn lt_until(&self, rhs: &AffFunction) -> (r: Option<i128>)
        requires
            until_ok(*self, *rhs),
        ensures
            (r is Some) <==> self.slope > rhs.slope,
            r is Some ==> (forall|t: int| t < (r->0) as int ==> lt_at(*self, *rhs, t)),
            r is Some ==> (forall|t: int| t >= (r->0) as int ==> !lt_at(*self, *rhs, t)),
            r is None ==> (forall|t1: int, t2: int|
                #![trigger lt_at(*self, *rhs, t1), lt_at(*self, *rhs, t2)]
                t1 <= t2 && lt_at(*self, *rhs, t1) ==> lt_at(*self, *rhs, t2)),
    {
        let ghost gd = self.slope as int - rhs.slope as int;
        if self.slope <= rhs.slope {
            proof {
                assert forall|t1: int, t2: int|
                    #![trigger lt_at(*self, *rhs, t1), lt_at(*self, *rhs, t2)]
                    t1 <= t2 && lt_at(*self, *rhs, t1) implies lt_at(*self, *rhs, t2) by {
                    lemma_cross_form(*self, *rhs, t1);
                    lemma_cross_form(*self, *rhs, t2);
                    lemma_mul_mono(-gd, t1, t2);
                    assert((-gd) * t1 == -(gd * t1)) by (nonlinear_arith);
                    assert((-gd) * t2 == -(gd * t2)) by (nonlinear_arith);
                }
            }
            None
        } else {
            let d: i128 = self.slope - rhs.slope;
            let c: i128 = rhs.slope * (rhs.x_shift as i128) - self.slope * (self.x_shift as i128);
            let e: i128 = ceil_div(c, d);
            proof {
                assert forall|t: int| t < e as int implies lt_at(*self, *rhs, t) by {
                    lemma_cross_form(*self, *rhs, t);
                    lemma_mul_mono(gd, t, e as int - 1);
                }
                assert forall|t: int| t >= e as int implies !lt_at(*self, *rhs, t) by {
                    lemma_cross_form(*self, *rhs, t);
                    lemma_mul_mono(gd, e as int, t);
                }
            }
            Some(e)
        }
    }

    /// The crossing query for the non-strict relation: when does
    /// `self <= rhs` stop holding?
    ///
    /// Returns `Some(e)` exactly when `self` has the larger slope; then the
    /// relation holds at every time before `e` and fails at `e` and every
    /// later time.  Returns `None` when the relation, once it holds, holds at
    /// every later time.
    pub fn le_until(&self, rhs: &AffFunction) -> (r: Option<i128>)
        requires
            until_ok(*self, *rhs),
        ensures
            (r is Some) <==> self.slope > rhs.slope,
            r is Some ==> (forall|t: int| t < (r->0) as int ==> le_at(*self, *rhs, t)),
            r is Some ==> (forall|t: int| t >= (r->0) as int ==> !le_at(*self, *rhs, t)),
            r is None ==> (forall|t1: int, t2: int|
                #![trigger le_at(*self, *rhs, t1), le_at(*self, *rhs, t2)]
                t1 <= t2 && le_at(*self, *rhs, t1) ==> le_at(*self, *rhs, t2)),
    {
        let ghost gd = self.slope as int - rhs.slope as int;
        if self.slope <= rhs.slope {
            proof {
                assert forall|t1: int, t2: int|
                    #![trigger le_at(*self, *rhs, t1), le_at(*self, *rhs, t2)]
                    t1 <= t2 && le_at(*self, *rhs, t1) implies le_at(*self, *rhs, t2) by {
                    lemma_cross_form(*self, *rhs, t1);
                    lemma_cross_form(*self, *rhs, t2);
                    lemma_mul_mono(-gd, t1, t2);
                    assert((-gd) * t1 == -(gd * t1)) by (nonlinear_arith);
                    assert((-gd) * t2 == -(gd * t2)) by (nonlinear_arith);
                }
            }
            None
        } else {
            let d: i128 = self.slope - rhs.slope;
            let c: i128 = rhs.slope * (rhs.x_shift as i128) - self.slope * (self.x_shift as i128);
            let fl: i128 = floor_div(c, d);
            let e: i128 = fl + 1;
            proof {
                assert forall|t: int| t < e as int implies le_at(*self, *rhs, t) by {
                    lemma_cross_form(*self, *rhs, t);
                    lemma_mul_mono(gd, t, fl as int);
                }
                assert forall|t: int| t >= e as int implies !le_at(*self, *rhs, t) by {
                    lemma_cross_form(*self, *rhs, t);
                    lemma_mul_mono(gd, e as int, t);
                }
            }
            Some(e)
        }
    }
}

} // verus!
