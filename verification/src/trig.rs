//! Fixed-point sine and cosine.
//!
//! The argument is reduced to the nearest multiple of a half turn and the
//! remainder is fed to a truncated power series; the quadrant then selects
//! and signs the series value. Every step is truncating fixed-point
//! arithmetic, mirrored exactly by the spec functions, so two calls on the
//! same argument always return the same mantissa.
use vstd::prelude::*;

use crate::fx::abs_v;
use crate::fx::fx_mul_v;
use crate::fx::lemma_fx_mul_bound;
use crate::fx::lemma_tdiv_mag;
use crate::fx::tdiv;
use crate::fx::Fx;
use crate::fx::idiv;
use crate::fx::FX_SCALE;

verus! {

/// The fixed-point mantissa nearest to a quarter turn (pi / 2).
pub const FX_HALF_PI: i128 = 102944;

/// The fixed-point mantissa nearest to pi.
pub const FX_PI: i128 = 205887;

/// Largest argument magnitude the trigonometric routines accept.
pub const TRIG_LIM: i128 = 0x1000_0000_0000_0000; // 2^60

/// Truncated sine series on a reduced argument:
/// `t - t^3/6 + t^5/120 - t^7/5040` in fixed point.
pub open spec fn sin_poly_v(t: int) -> int {
    let t2 = fx_mul_v(t, t);
    let t3 = fx_mul_v(t2, t);
    let t5 = fx_mul_v(t3, t2);
    let t7 = fx_mul_v(t5, t2);
    t - tdiv(t3, 6) + tdiv(t5, 120) - tdiv(t7, 5040)
}

/// Truncated cosine series on a reduced argument:
/// `1 - t^2/2 + t^4/24 - t^6/720` in fixed point.
pub open spec fn cos_poly_v(t: int) -> int {
    let t2 = fx_mul_v(t, t);
    let t4 = fx_mul_v(t2, t2);
    let t6 = fx_mul_v(t4, t2);
    FX_SCALE - tdiv(t2, 2) + tdiv(t4, 24) - tdiv(t6, 720)
}

/// Number of quarter turns nearest to `x` (ties keep the truncated quotient).
pub open spec fn quarter_turns_v(x: int) -> int {
    let q = tdiv(x, FX_HALF_PI as int);
    let r = x - q * FX_HALF_PI;
    if r > FX_HALF_PI / 2 {
        q + 1
    } else if r < -(FX_HALF_PI / 2) {
        q - 1
    } else {
        q
    }
}

/// Remainder of `x` after removing the nearest quarter turns.
pub open spec fn reduced_arg_v(x: int) -> int {
    x - quarter_turns_v(x) * FX_HALF_PI
}

/// The quarter-turn count of `x`, brought into `0..4`.
pub open spec fn quadrant_v(x: int) -> int {
    let k = quarter_turns_v(x);
    let r = k - tdiv(k, 4) * 4;
    if r < 0 {
        r + 4
    } else {
        r
    }
}

/// The fixed-point sine of `x` (mantissa of radians).
pub open spec fn fx_sin_v(x: int) -> int {
    let t = reduced_arg_v(x);
    let quad = quadrant_v(x);
    if quad == 0 {
        sin_poly_v(t)
    } else if quad == 1 {
        cos_poly_v(t)
    } else if quad == 2 {
        -sin_poly_v(t)
    } else {
        -cos_poly_v(t)
    }
}

/// The fixed-point cosine of `x` (mantissa of radians).
pub open spec fn fx_cos_v(x: int) -> int {
    let t = reduced_arg_v(x);
    let quad = quadrant_v(x);
    if quad == 0 {
        cos_poly_v(t)
    } else if quad == 1 {
        -sin_poly_v(t)
    } else if quad == 2 {
        -cos_poly_v(t)
    } else {
        sin_poly_v(t)
    }
}

/// The reduced argument stays within half a quarter turn, and the series
/// values stay within one fixed-point unit, as sine and cosine should.
pub proof fn lemma_trig_bounds(x: int)
    ensures
        abs_v(reduced_arg_v(x)) <= FX_HALF_PI / 2,
        abs_v(sin_poly_v(reduced_arg_v(x))) <= FX_SCALE,
        abs_v(cos_poly_v(reduced_arg_v(x))) <= FX_SCALE,
        abs_v(fx_sin_v(x)) <= FX_SCALE,
        abs_v(fx_cos_v(x)) <= FX_SCALE,
{
    lemma_reduced_arg(x);
    lemma_series_bounds(reduced_arg_v(x));
}

/// Range reduction leaves a remainder of at most half a quarter turn.
proof fn lemma_reduced_arg(x: int)
    ensures
        abs_v(reduced_arg_v(x)) <= FX_HALF_PI / 2,
        abs_v(x - tdiv(x, FX_HALF_PI as int) * FX_HALF_PI) < FX_HALF_PI,
{
    let hp = FX_HALF_PI as int;
    let ax = abs_v(x);
    vstd::arithmetic::div_mod::lemma_fundamental_div_mod(ax, hp);
    vstd::arithmetic::div_mod::lemma_mod_bound(ax, hp);
    let q = ax / hp;
    let rr = ax % hp;
    let q0 = tdiv(x, hp);
    if x >= 0 {
        assert(x - q0 * hp == rr) by (nonlinear_arith)
            requires
                x == ax,
                q0 == q,
                ax == hp * q + rr,
        ;
    } else {
        assert(x - q0 * hp == -rr) by (nonlinear_arith)
            requires
                x == -ax,
                q0 == -q,
                ax == hp * q + rr,
        ;
    }
}

/// The truncated series and their intermediate powers stay small on a
/// reduced argument; in particular both series keep the unit bound of the
/// true sine and cosine.
proof fn lemma_series_bounds(t: int)
    requires
        abs_v(t) <= FX_HALF_PI / 2,
    ensures
        abs_v(fx_mul_v(t, t)) <= 41000,
        abs_v(fx_mul_v(fx_mul_v(t, t), t)) <= 33000,
        abs_v(fx_mul_v(fx_mul_v(t, t), fx_mul_v(t, t))) <= 26000,
        abs_v(fx_mul_v(fx_mul_v(fx_mul_v(t, t), t), fx_mul_v(t, t))) <= 21000,
        abs_v(fx_mul_v(fx_mul_v(fx_mul_v(t, t), fx_mul_v(t, t)), fx_mul_v(t, t))) <= 17000,
        abs_v(fx_mul_v(fx_mul_v(fx_mul_v(fx_mul_v(t, t), t), fx_mul_v(t, t)), fx_mul_v(t, t)))
            <= 14000,
        abs_v(sin_poly_v(t)) <= FX_SCALE,
        abs_v(cos_poly_v(t)) <= FX_SCALE,
{
    let t2 = fx_mul_v(t, t);
    let t3 = fx_mul_v(t2, t);
    let t4 = fx_mul_v(t2, t2);
    let t5 = fx_mul_v(t3, t2);
    let t6 = fx_mul_v(t4, t2);
    let t7 = fx_mul_v(t5, t2);
    lemma_fx_mul_bound(t, t, 51472, 51472);
    lemma_fx_mul_bound(t2, t, 41000, 51472);
    lemma_fx_mul_bound(t2, t2, 41000, 41000);
    lemma_fx_mul_bound(t3, t2, 33000, 41000);
    lemma_fx_mul_bound(t4, t2, 26000, 41000);
    lemma_fx_mul_bound(t5, t2, 21000, 41000);
    lemma_tdiv_mag(t3, 6, 33000);
    lemma_tdiv_mag(t5, 120, 21000);
    lemma_tdiv_mag(t7, 5040, 14000);
    lemma_tdiv_mag(t2, 2, 41000);
    lemma_tdiv_mag(t4, 24, 26000);
    lemma_tdiv_mag(t6, 720, 17000);
    // the even powers are nonnegative, and each later even power is no
    // larger than the one before, so the cosine series cannot leave [0, 1]:
    // its fourth-order term is dominated by the second-order one
    assert(t * t >= 0) by (nonlinear_arith);
    crate::fx::lemma_tdiv_bound(t * t, FX_SCALE as int);
    assert(t2 >= 0);
    assert(t2 * t2 >= 0) by (nonlinear_arith)
        requires
            t2 >= 0,
    ;
    crate::fx::lemma_tdiv_bound(t2 * t2, FX_SCALE as int);
    assert(t4 >= 0);
    assert(t4 * t2 >= 0) by (nonlinear_arith)
        requires
            t4 >= 0,
            t2 >= 0,
    ;
    crate::fx::lemma_tdiv_bound(t4 * t2, FX_SCALE as int);
    assert(t6 >= 0);
    // t4 <= t2 since t2 <= FX_SCALE
    assert(t2 * t2 <= t2 * FX_SCALE) by (nonlinear_arith)
        requires
            0 <= t2 <= FX_SCALE,
    ;
    crate::fx::lemma_tdiv_mono(t2 * t2, t2 * (FX_SCALE as int), FX_SCALE as int);
    crate::fx::lemma_tdiv_exact(t2, FX_SCALE as int);
    assert(t4 <= t2);
    // hence t4/24 <= t2/24 <= t2/2
    crate::fx::lemma_tdiv_mono(t4, t2, 24);
    crate::fx::lemma_tdiv_denominator(t2, 2, 24);
    crate::fx::lemma_tdiv_bound(t2, 2);
    crate::fx::lemma_tdiv_bound(t4, 24);
    crate::fx::lemma_tdiv_bound(t6, 720);
}

/// Executable quadrant reduction shared by sine and cosine: the nearest
/// quarter-turn count, the remainder, and the quadrant.
fn reduce_arg(x: i128) -> (r: (i128, i128))
    requires
        -TRIG_LIM <= x <= TRIG_LIM,
    ensures
        r.0 == reduced_arg_v(x as int),
        r.1 == quadrant_v(x as int),
        abs_v(r.0 as int) <= FX_HALF_PI / 2,
        0 <= r.1 < 4,
{
    proof {
        lemma_reduced_arg(x as int);
    }
    let q0 = idiv(x, FX_HALF_PI);
    let r0 = x - q0 * FX_HALF_PI;
    let k: i128 = if r0 > FX_HALF_PI / 2 {
        q0 + 1
    } else if r0 < -(FX_HALF_PI / 2) {
        q0 - 1
    } else {
        q0
    };
    let t = x - k * FX_HALF_PI;
    let kr = k - idiv(k, 4) * 4;
    let quad: i128 = if kr < 0 {
        kr + 4
    } else {
        kr
    };
    proof {
        let kk = k as int;
        vstd::arithmetic::div_mod::lemma_fundamental_div_mod(abs_v(kk), 4);
        vstd::arithmetic::div_mod::lemma_mod_bound(abs_v(kk), 4);
        assert(abs_v(kk - tdiv(kk, 4) * 4) < 4) by {
            let qq = abs_v(kk) / 4;
            let rr = abs_v(kk) % 4;
            if kk >= 0 {
                assert(kk - tdiv(kk, 4) * 4 == rr) by (nonlinear_arith)
                    requires
                        kk == abs_v(kk),
                        tdiv(kk, 4) == qq,
                        abs_v(kk) == 4 * qq + rr,
                ;
            } else {
                assert(kk - tdiv(kk, 4) * 4 == -rr) by (nonlinear_arith)
                    requires
                        kk == -abs_v(kk),
                        tdiv(kk, 4) == -qq,
                        abs_v(kk) == 4 * qq + rr,
                ;
            }
        }
    }
    (t, quad)
}

/// The fixed-point sine, deterministic by construction.
pub fn fx_sin(x: Fx) -> (r: Fx)
    requires
        -TRIG_LIM <= x@ <= TRIG_LIM,
    ensures
        r@ == fx_sin_v(x@),
        abs_v(r@) <= FX_SCALE,
{
    proof {
        lemma_trig_bounds(x@);
    }
    let (t, quad) = reduce_arg(x.m);
    if quad == 0 {
        Fx { m: sin_poly(t) }
    } else if quad == 1 {
        Fx { m: cos_poly(t) }
    } else if quad == 2 {
        Fx { m: -sin_poly(t) }
    } else {
        Fx { m: -cos_poly(t) }
    }
}

/// The fixed-point cosine, deterministic by construction.
pub fn fx_cos(x: Fx) -> (r: Fx)
    requires
        -TRIG_LIM <= x@ <= TRIG_LIM,
    ensures
        r@ == fx_cos_v(x@),
        abs_v(r@) <= FX_SCALE,
{
    proof {
        lemma_trig_bounds(x@);
    }
    let (t, quad) = reduce_arg(x.m);
    if quad == 0 {
        Fx { m: cos_poly(t) }
    } else if quad == 1 {
        Fx { m: -sin_poly(t) }
    } else if quad == 2 {
        Fx { m: -cos_poly(t) }
    } else {
        Fx { m: sin_poly(t) }
    }
}

fn sin_poly(t: i128) -> (r: i128)
    requires
        abs_v(t as int) <= FX_HALF_PI / 2,
    ensures
        r == sin_poly_v(t as int),
{
    proof {
        lemma_series_bounds(t as int);
    }
    let t2 = idiv(t * t, FX_SCALE);
    let t3 = idiv(t2 * t, FX_SCALE);
    let t5 = idiv(t3 * t2, FX_SCALE);
    let t7 = idiv(t5 * t2, FX_SCALE);
    t - idiv(t3, 6) + idiv(t5, 120) - idiv(t7, 5040)
}

fn cos_poly(t: i128) -> (r: i128)
    requires
        abs_v(t as int) <= FX_HALF_PI / 2,
    ensures
        r == cos_poly_v(t as int),
{
    proof {
        lemma_series_bounds(t as int);
    }
    let t2 = idiv(t * t, FX_SCALE);
    let t4 = idiv(t2 * t2, FX_SCALE);
    let t6 = idiv(t4 * t2, FX_SCALE);
    FX_SCALE - idiv(t2, 2) + idiv(t4, 24) - idiv(t6, 720)
}

} // verus!
