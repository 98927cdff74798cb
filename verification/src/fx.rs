//! Exact fixed-point scalars.
//!
//! A real quantity (a pixel position, an intensity, a coefficient) is held as
//! an integer mantissa `m` and denotes the real number `m / FX_SCALE`.
//! Addition and subtraction are exact; multiplication and division truncate
//! the true result toward zero at the last mantissa bit, and the contracts
//! state that truncation exactly.
use vstd::prelude::*;

verus! {

/// Mantissa units per 1.0.
pub const FX_SCALE: i128 = 65536;

/// Magnitude bound under which every library operation on mantissas is free
/// of `i128` overflow; all public entry points keep mantissas far below it.
pub const FX_LIM: i128 = 0x4000_0000_0000_0000_0000_0000_0000; // 2^110

/// A real number in fixed-point representation: the value `m / FX_SCALE`.
#[derive(Clone, Copy, Debug, PartialEq, Eq, Structural)]
pub struct Fx {
    /// mantissa: this `Fx` denotes the real number `m / FX_SCALE`
    pub m: i128,
}

impl View for Fx {
    type V = int;

    open spec fn view(&self) -> int {
        self.m as int
    }
}

/// Magnitude of a spec-level integer.
pub open spec fn abs_v(a: int) -> int {
    if a >= 0 {
        a
    } else {
        -a
    }
}

/// Integer division truncating toward zero (the semantics shared by all
/// divisions in this library), defined over magnitudes so that only positive
/// spec-level divisors occur. `b` must be nonzero for a meaningful result.
pub open spec fn tdiv(a: int, b: int) -> int {
    let q = abs_v(a) / abs_v(b);
    if (a >= 0) == (b >= 0) {
        q
    } else {
        -q
    }
}

/// The mantissa of the fixed-point product: `(a * b) / FX_SCALE`, truncated
/// toward zero.
pub open spec fn fx_mul_v(a: int, b: int) -> int {
    tdiv(a * b, FX_SCALE as int)
}

/// The mantissa of the fixed-point quotient: `(a * FX_SCALE) / b`, truncated
/// toward zero.
pub open spec fn fx_div_v(a: int, b: int) -> int {
    tdiv(a * FX_SCALE, b)
}

/// Integer division of mantissas, truncating toward zero.
pub(crate) fn idiv(a: i128, b: i128) -> (r: i128)
    requires
        b != 0,
        a != i128::MIN,
        b != i128::MIN,
    ensures
        r == tdiv(a as int, b as int),
        abs_v(r as int) <= abs_v(a as int),
{
    let an: i128 = if a >= 0 {
        a
    } else {
        -a
    };
    let bn: i128 = if b >= 0 {
        b
    } else {
        -b
    };
    proof {
        lemma_div_nonneg_bound(an as int, bn as int);
    }
    let q = an / bn;
    if (a >= 0) == (b >= 0) {
        q
    } else {
        -q
    }
}

impl Fx {
    /// The fixed-point zero.
    pub fn zero() -> (r: Fx)
        ensures
            r@ == 0,
    {
        Fx { m: 0 }
    }

    /// The fixed-point one.
    pub fn one() -> (r: Fx)
        ensures
            r@ == FX_SCALE,
    {
        Fx { m: FX_SCALE }
    }

    /// The exact fixed-point image of an integer.
    pub fn from_int(v: i64) -> (r: Fx)
        ensures
            r@ == v * FX_SCALE,
    {
        Fx { m: (v as i128) * FX_SCALE }
    }

    /// Exact addition.
    pub fn add(self, rhs: Fx) -> (r: Fx)
        requires
            -FX_LIM <= self@ + rhs@ <= FX_LIM,
        ensures
            r@ == self@ + rhs@,
    {
        Fx { m: self.m + rhs.m }
    }

    /// Exact subtraction.
    pub fn sub(self, rhs: Fx) -> (r: Fx)
        requires
            -FX_LIM <= self@ - rhs@ <= FX_LIM,
        ensures
            r@ == self@ - rhs@,
    {
        Fx { m: self.m - rhs.m }
    }

    /// Exact negation.
    pub fn neg(self) -> (r: Fx)
        requires
            self@ != i128::MIN,
        ensures
            r@ == -self@,
    {
        Fx { m: -self.m }
    }

    /// Fixed-point multiplication, truncating toward zero.
    pub fn mul(self, rhs: Fx) -> (r: Fx)
        requires
            -i128::MAX <= self@ * rhs@ <= i128::MAX,
        ensures
            r@ == fx_mul_v(self@, rhs@),
            abs_v(r@) <= abs_v(self@ * rhs@),
    {
        let p: i128 = self.m * rhs.m;
        Fx { m: idiv(p, FX_SCALE) }
    }

    /// Fixed-point division, truncating toward zero.
    pub fn div(self, rhs: Fx) -> (r: Fx)
        requires
            rhs@ != 0,
            rhs@ != i128::MIN,
            -i128::MAX <= self@ * FX_SCALE <= i128::MAX,
        ensures
            r@ == fx_div_v(self@, rhs@),
    {
        let p: i128 = self.m * FX_SCALE;
        Fx { m: idiv(p, rhs.m) }
    }

    /// `true` exactly when `self` is the smaller value.
    pub fn lt(self, rhs: Fx) -> (r: bool)
        ensures
            r == (self@ < rhs@),
    {
        self.m < rhs.m
    }

    /// `true` exactly when `self` is the larger value.
    pub fn gt(self, rhs: Fx) -> (r: bool)
        ensures
            r == (self@ > rhs@),
    {
        self.m > rhs.m
    }
}

/// Truncating division by a nonzero divisor never grows the magnitude of
/// the dividend, and it preserves the sign of the true quotient.
pub proof fn lemma_tdiv_bound(a: int, b: int)
    requires
        b != 0,
    ensures
        -abs_v(a) <= tdiv(a, b) <= abs_v(a),
        a >= 0 && b > 0 ==> 0 <= tdiv(a, b),
        a <= 0 && b > 0 ==> tdiv(a, b) <= 0,
{
    lemma_div_nonneg_bound(abs_v(a), abs_v(b));
}

proof fn lemma_div_nonneg_bound(a: int, b: int)
    requires
        a >= 0,
        b > 0,
    ensures
        0 <= a / b <= a,
{
    vstd::arithmetic::div_mod::lemma_fundamental_div_mod(a, b);
    vstd::arithmetic::div_mod::lemma_mod_bound(a, b);
    let q = a / b;
    let r = a % b;
    assert(0 <= q <= a) by (nonlinear_arith)
        requires
            b > 0,
            a >= 0,
            0 <= r < b,
            a == b * q + r,
    ;
}

/// Division by a positive divisor shrinks magnitudes by that divisor.
pub proof fn lemma_tdiv_mag(a: int, b: int, bound: int)
    requires
        b > 0,
        abs_v(a) <= bound,
    ensures
        abs_v(tdiv(a, b)) <= bound / b,
{
    vstd::arithmetic::div_mod::lemma_div_is_ordered(abs_v(a), bound, b);
    lemma_div_nonneg_bound(abs_v(a), b);
}

/// Magnitudes multiply: the product of two bounded integers is bounded by
/// the product of the bounds.
pub proof fn lemma_mul_mag(a: int, b: int, ba: int, bb: int)
    requires
        abs_v(a) <= ba,
        abs_v(b) <= bb,
    ensures
        abs_v(a * b) <= ba * bb,
{
    assert(abs_v(a * b) <= ba * bb) by (nonlinear_arith)
        requires
            abs_v(a) <= ba,
            abs_v(b) <= bb,
    ;
}

/// A fixed-point product of bounded mantissas is bounded by the scaled-down
/// product of the bounds.
pub proof fn lemma_fx_mul_bound(a: int, b: int, ba: int, bb: int)
    requires
        abs_v(a) <= ba,
        abs_v(b) <= bb,
    ensures
        abs_v(fx_mul_v(a, b)) <= (ba * bb) / (FX_SCALE as int),
{
    lemma_mul_mag(a, b, ba, bb);
    lemma_tdiv_mag(a * b, FX_SCALE as int, ba * bb);
}

/// Truncating division of nonnegative values is monotone in the dividend.
pub proof fn lemma_tdiv_mono(a: int, b: int, d: int)
    requires
        0 <= a <= b,
        0 < d,
    ensures
        0 <= tdiv(a, d) <= tdiv(b, d),
{
    vstd::arithmetic::div_mod::lemma_div_is_ordered(a, b, d);
    lemma_div_nonneg_bound(a, d);
}

/// For a nonnegative dividend, a larger divisor gives a smaller quotient.
pub proof fn lemma_tdiv_denominator(x: int, d1: int, d2: int)
    requires
        0 <= x,
        1 <= d1 <= d2,
    ensures
        tdiv(x, d2) <= tdiv(x, d1),
{
    vstd::arithmetic::div_mod::lemma_div_is_ordered_by_denominator(x, d1, d2);
}

/// Two dividends with the same truncated quotient lie within two divisor
/// widths of each other.
pub proof fn lemma_tdiv_same_quot(a: int, b: int, d: int)
    requires
        d > 0,
        tdiv(a, d) == tdiv(b, d),
    ensures
        abs_v(a - b) < 2 * d,
{
    let aa = abs_v(a);
    let ab = abs_v(b);
    vstd::arithmetic::div_mod::lemma_fundamental_div_mod(aa, d);
    vstd::arithmetic::div_mod::lemma_mod_bound(aa, d);
    vstd::arithmetic::div_mod::lemma_fundamental_div_mod(ab, d);
    vstd::arithmetic::div_mod::lemma_mod_bound(ab, d);
    let qa = aa / d;
    let qb = ab / d;
    let ra = aa % d;
    let rb = ab % d;
    lemma_div_nonneg_bound(aa, d);
    lemma_div_nonneg_bound(ab, d);
    if a >= 0 && b >= 0 {
        assert(qa == qb);
        assert(abs_v(a - b) < d) by (nonlinear_arith)
            requires
                a == aa,
                b == ab,
                aa == d * qa + ra,
                ab == d * qb + rb,
                qa == qb,
                0 <= ra < d,
                0 <= rb < d,
        ;
    } else if a < 0 && b < 0 {
        assert(qa == qb);
        assert(abs_v(a - b) < d) by (nonlinear_arith)
            requires
                a == -aa,
                b == -ab,
                aa == d * qa + ra,
                ab == d * qb + rb,
                qa == qb,
                0 <= ra < d,
                0 <= rb < d,
        ;
    } else {
        // opposite signs: both quotients must be zero, so both magnitudes
        // are below the divisor
        assert(qa == 0 && qb == 0);
        assert(aa < d && ab < d) by (nonlinear_arith)
            requires
                aa == d * qa + ra,
                ab == d * qb + rb,
                qa == 0,
                qb == 0,
                0 <= ra < d,
                0 <= rb < d,
        ;
    }
}

/// When the divisor divides the dividend, truncating division is exact.
pub proof fn lemma_tdiv_exact(c: int, b: int)
    requires
        b != 0,
    ensures
        tdiv(c * b, b) == c,
{
    assert(abs_v(c * b) == abs_v(c) * abs_v(b)) by (nonlinear_arith);
    vstd::arithmetic::div_mod::lemma_div_multiples_vanish(abs_v(c), abs_v(b));
    assert(abs_v(b) * abs_v(c) == abs_v(c) * abs_v(b)) by (nonlinear_arith);
    assert(abs_v(c * b) / abs_v(b) == abs_v(c));
    assert(c != 0 ==> ((c * b >= 0) == ((c >= 0) == (b >= 0)))) by (nonlinear_arith)
        requires
            b != 0,
    ;
}

} // verus!
