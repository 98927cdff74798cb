//! Distortion basis families.
//!
//! A distortion basis is a finite ordered set of scalar functions of
//! position; a fitted basis owns one 2D coefficient per basis function and
//! evaluates the modelled displacement as the coefficient-weighted sum of
//! the basis functions. Two families are provided: bivariate homogeneous
//! polynomials and a 2D Fourier family.
use vstd::prelude::*;

use crate::errors::MavDACError;
use crate::fx::abs_v;
use crate::fx::fx_mul_v;
use crate::fx::idiv;
use crate::fx::lemma_fx_mul_bound;
use crate::fx::lemma_tdiv_mag;
use crate::fx::tdiv;
use crate::fx::Fx;
use crate::fx::FX_SCALE;
use crate::geom::Vec2D;
use crate::geom::DIM_LIM;
use crate::trig::fx_cos;
use crate::trig::fx_cos_v;
use crate::trig::fx_sin;
use crate::trig::fx_sin_v;
use crate::trig::lemma_trig_bounds;
use crate::trig::FX_PI;

verus! {

/// Largest coefficient mantissa magnitude a basis accepts.
pub const COEFF_LIM: i128 = 0x1_0000_0000_0000_0000_0000; // 2^80

/// Every basis function value stays within this mantissa bound (one
/// fixed-point unit: normalized powers and sine/cosine products never exceed
/// one).
pub const SAMPLE_LIM: i128 = 0x10000; // FX_SCALE

/// Largest number of basis functions a basis may have.
pub const NCOEFFS_LIM: usize = 0x10_0000; // 2^20

/// Largest polynomial degree accepted.
pub const DEGREE_LIM: usize = 1000;

/// Largest Fourier frequency accepted.
pub const FREQ_LIM: usize = 256;

/// Fixed-point power: `e` successive truncating multiplications by `b`,
/// starting from one.
pub open spec fn fx_pow_v(b: int, e: nat) -> int
    decreases e,
{
    if e == 0 {
        FX_SCALE as int
    } else {
        fx_mul_v(fx_pow_v(b, (e - 1) as nat), b)
    }
}

/// Powers of a unit-bounded mantissa stay unit-bounded.
pub proof fn lemma_fx_pow_bound(b: int, e: nat)
    requires
        abs_v(b) <= FX_SCALE,
    ensures
        abs_v(fx_pow_v(b, e)) <= FX_SCALE,
    decreases e,
{
    if e > 0 {
        lemma_fx_pow_bound(b, (e - 1) as nat);
        lemma_fx_mul_bound(fx_pow_v(b, (e - 1) as nat), b, FX_SCALE as int, FX_SCALE as int);
    }
}

/// Position recentred to the extent centre and scaled by half the extent:
/// `(x - d/2) / (d/2)`, computed as `(2 x - d) / d` in one truncation.
pub open spec fn norm_center_v(x: int, d: int) -> int {
    tdiv(2 * x - d * FX_SCALE, d)
}

/// Position scaled by the extent: `x / d`.
pub open spec fn norm_extent_v(x: int, d: int) -> int {
    tdiv(x, d)
}

/// Both normalizations keep in-extent positions within one fixed-point unit.
pub proof fn lemma_norm_bounds(x: int, d: int)
    requires
        1 <= d,
        0 <= x <= d * FX_SCALE,
    ensures
        abs_v(norm_center_v(x, d)) <= FX_SCALE,
        abs_v(norm_extent_v(x, d)) <= FX_SCALE,
{
    lemma_tdiv_mag(2 * x - d * FX_SCALE, d, d * (FX_SCALE as int));
    lemma_tdiv_mag(x, d, d * (FX_SCALE as int));
    vstd::arithmetic::div_mod::lemma_div_multiples_vanish(FX_SCALE as int, d);
    assert(d * FX_SCALE == d * (FX_SCALE as int)) by (nonlinear_arith);
}

/// Shared contract of a distortion basis family: a fixed ordered set of
/// scalar basis functions of position, and one 2D coefficient per function.
pub trait DistortionBasis: Sized {
    /// Parameters and coefficients are in range and consistent.
    spec fn basis_wf(&self) -> bool;

    /// Number of basis functions (fixed at construction).
    spec fn ncoeffs_spec(&self) -> int;

    /// The coefficient vector.
    spec fn coeffs_spec(&self) -> Seq<Vec2D>;

    /// The positions at which sampling is defined: inside the target extent
    /// (a machine-range bound, not a model assumption).
    spec fn pos_ok(&self, pos: Vec2D) -> bool;

    /// The value (mantissa) of basis function `index` at a position.
    spec fn sample_spec(&self, pos: Vec2D, index: int) -> int;

    /// A well-formed basis has as many coefficients as basis functions, all
    /// within the coefficient range.
    proof fn lemma_basis_facts(&self)
        requires
            self.basis_wf(),
        ensures
            0 < self.ncoeffs_spec() <= NCOEFFS_LIM,
            self.coeffs_spec().len() == self.ncoeffs_spec(),
            forall|i: int|
                0 <= i < self.ncoeffs_spec() ==> abs_v(#[trigger] self.coeffs_spec()[i].x@)
                    <= COEFF_LIM && abs_v(self.coeffs_spec()[i].y@) <= COEFF_LIM,
    ;

    /// Basis function values are bounded at admissible positions.
    proof fn lemma_sample_bound(&self, pos: Vec2D, index: int)
        requires
            self.basis_wf(),
            self.pos_ok(pos),
            0 <= index < self.ncoeffs_spec(),
        ensures
            abs_v(self.sample_spec(pos, index)) <= SAMPLE_LIM,
    ;

    /// The value of the bivariate basis function `index` at a position,
    /// normalized as the family prescribes.
    fn sample(&self, pos: &Vec2D, index: usize) -> (r: Fx)
        requires
            self.basis_wf(),
            self.pos_ok(*pos),
            index < self.ncoeffs_spec(),
        ensures
            r@ == self.sample_spec(*pos, index as int),
    ;

    /// The coefficient vector, one 2D coefficient per basis index.
    fn get_coeffs(&self) -> (r: &Vec<Vec2D>)
        requires
            self.basis_wf(),
        ensures
            r@ == self.coeffs_spec(),
    ;

    /// Replace the coefficient vector; everything else about the basis is
    /// unchanged.
    fn set_coeffs(&mut self, coeffs: Vec<Vec2D>)
        requires
            old(self).basis_wf(),
            coeffs@.len() == old(self).ncoeffs_spec(),
            forall|i: int|
                0 <= i < coeffs@.len() ==> abs_v(#[trigger] coeffs@[i].x@) <= COEFF_LIM && abs_v(
                    coeffs@[i].y@,
                ) <= COEFF_LIM,
        ensures
            final(self).basis_wf(),
            final(self).coeffs_spec() == coeffs@,
            final(self).ncoeffs_spec() == old(self).ncoeffs_spec(),
            forall|p: Vec2D| #[trigger] final(self).pos_ok(p) == old(self).pos_ok(p),
            forall|p: Vec2D, i: int|
                #[trigger] final(self).sample_spec(p, i) == old(self).sample_spec(p, i),
    ;

}

/// Partial coefficient-weighted sum of basis values, x component: the first
/// `n` terms `coeff[i].x * sample(pos, i)`.
pub open spec fn eval_x_v<B: DistortionBasis>(b: &B, pos: Vec2D, n: int) -> int
    decreases n,
{
    if n <= 0 {
        0
    } else {
        eval_x_v(b, pos, n - 1) + fx_mul_v(b.coeffs_spec()[n - 1].x@, b.sample_spec(pos, n - 1))
    }
}

/// Partial coefficient-weighted sum of basis values, y component.
pub open spec fn eval_y_v<B: DistortionBasis>(b: &B, pos: Vec2D, n: int) -> int
    decreases n,
{
    if n <= 0 {
        0
    } else {
        eval_y_v(b, pos, n - 1) + fx_mul_v(b.coeffs_spec()[n - 1].y@, b.sample_spec(pos, n - 1))
    }
}

/// Evaluate a fitted basis at a position: the displacement the model
/// predicts there. This is the shared executable body of
/// [`DistortionBasis::eval`].
pub fn evaluate<B: DistortionBasis>(b: &B, pos: &Vec2D) -> (r: Vec2D)
    requires
        b.basis_wf(),
        b.pos_ok(*pos),
    ensures
        r.x@ == eval_x_v(b, *pos, b.ncoeffs_spec()),
        r.y@ == eval_y_v(b, *pos, b.ncoeffs_spec()),
{
    proof {
        b.lemma_basis_facts();
    }
    let n = b.get_coeffs().len();
    let mut sx = Fx::zero();
    let mut sy = Fx::zero();
    let mut i: usize = 0;
    while i < n
        invariant
            b.basis_wf(),
            b.pos_ok(*pos),
            n == b.ncoeffs_spec(),
            i <= n,
            sx@ == eval_x_v(b, *pos, i as int),
            sy@ == eval_y_v(b, *pos, i as int),
            abs_v(sx@) <= i * 0x4_0000_0000_0000_0000_0000,
            abs_v(sy@) <= i * 0x4_0000_0000_0000_0000_0000,
        decreases n - i,
    {
        proof {
            b.lemma_basis_facts();
            b.lemma_sample_bound(*pos, i as int);
            crate::fx::lemma_mul_mag(
                b.coeffs_spec()[i as int].x@,
                b.sample_spec(*pos, i as int),
                COEFF_LIM as int,
                SAMPLE_LIM as int,
            );
            crate::fx::lemma_mul_mag(
                b.coeffs_spec()[i as int].y@,
                b.sample_spec(*pos, i as int),
                COEFF_LIM as int,
                SAMPLE_LIM as int,
            );
            lemma_fx_mul_bound(
                b.coeffs_spec()[i as int].x@,
                b.sample_spec(*pos, i as int),
                COEFF_LIM as int,
                SAMPLE_LIM as int,
            );
            lemma_fx_mul_bound(
                b.coeffs_spec()[i as int].y@,
                b.sample_spec(*pos, i as int),
                COEFF_LIM as int,
                SAMPLE_LIM as int,
            );
        }
        let s = b.sample(pos, i);
        let c = b.get_coeffs()[i];
        sx = sx.add(c.x.mul(s));
        sy = sy.add(c.y.mul(s));
        i = i + 1;
    }
    Vec2D { x: sx, y: sy }
}

/// The `n`-th triangular number: the number of `(n, k)` pairs with degree
/// below `n`.
pub open spec fn tri(n: int) -> int
    decreases n,
{
    if n <= 0 {
        0
    } else {
        tri(n - 1) + n
    }
}

/// Closed form of the triangular numbers: `tri(n) == n (n+1) / 2`.
pub proof fn lemma_tri_closed(n: int)
    requires
        n >= 0,
    ensures
        2 * tri(n) == n * (n + 1),
        tri(n) >= n,
    decreases n,
{
    if n > 0 {
        lemma_tri_closed(n - 1);
        assert((n - 1) * n + 2 * n == n * (n + 1)) by (nonlinear_arith);
    }
}

/// Triangular numbers grow with their index.
pub proof fn lemma_tri_mono(a: int, b: int)
    requires
        0 <= a <= b,
    ensures
        tri(a) <= tri(b),
    decreases b,
{
    if a < b {
        lemma_tri_mono(a, b - 1);
    }
}

/// The `(n, k)` exponent pair belonging to flat basis index `i`: triangular
/// order, total degree `n`, `x` exponent `k`.
pub open spec fn nk_ok(i: int, n: int, k: int) -> bool {
    &&& 1 <= n
    &&& tri(n) <= i + 1 < tri(n + 1)
    &&& k == i + 1 - tri(n)
}

/// Fixed-point power, truncating at every step.
fn fx_pow(b: Fx, e: usize) -> (r: Fx)
    requires
        abs_v(b@) <= FX_SCALE,
    ensures
        r@ == fx_pow_v(b@, e as nat),
        abs_v(r@) <= FX_SCALE,
{
    proof {
        lemma_fx_pow_bound(b@, e as nat);
    }
    let mut acc = Fx::one();
    let mut j: usize = 0;
    while j < e
        invariant
            abs_v(b@) <= FX_SCALE,
            j <= e,
            acc@ == fx_pow_v(b@, j as nat),
            abs_v(acc@) <= FX_SCALE,
        decreases e - j,
    {
        proof {
            crate::fx::lemma_mul_mag(acc@, b@, FX_SCALE as int, FX_SCALE as int);
            lemma_fx_mul_bound(acc@, b@, FX_SCALE as int, FX_SCALE as int);
        }
        acc = acc.mul(b);
        j = j + 1;
    }
    acc
}

/// The exponent pair of a flat basis index, found by walking the triangular
/// numbers: the unique `(n, k)` with `tri(n) <= index + 1 < tri(n + 1)` and
/// `k == index + 1 - tri(n)`.
fn index_to_nk(index: usize) -> (r: (usize, usize))
    requires
        index < NCOEFFS_LIM,
    ensures
        nk_ok(index as int, r.0 as int, r.1 as int),
        r.1 <= r.0,
{
    proof {
        reveal_with_fuel(tri, 3);
        assert(tri(1) == 1);
    }
    let mut n: usize = 1;
    let mut t: usize = 1;
    while t + n + 1 <= index + 1
        invariant
            1 <= n,
            index < NCOEFFS_LIM,
            t == tri(n as int),
            t <= index + 1,
            n <= t,
        decreases index + 1 - t,
    {
        proof {
            lemma_tri_closed(n as int);
        }
        t = t + n + 1;
        n = n + 1;
    }
    (n, index + 1 - t)
}

/// Bivariate homogeneous polynomial distortion basis.
///
/// Degree `d` selects the basis functions `x^k y^(n-k)` over all `(n, k)`
/// with `1 <= n <= d` and `0 <= k <= n` (the constant term is excluded), in
/// triangular order. Positions are recentred to the extent centre and scaled
/// by half the extent before the powers are taken.
pub struct BiVarPolyDistortions {
    /// degree of the polynomial (maximum total order)
    pub degree: usize,
    /// coefficients of the distortions, one per basis index
    pub coeffs: Vec<Vec2D>,
    /// shape of the target extent, `[height, width]`
    pub shape: [usize; 2],
    /// the `(n, k)` exponent pair of each basis index, in triangular order
    pub nk_lut: Vec<(usize, usize)>,
}

impl BiVarPolyDistortions {
    /// Construct the polynomial basis of a degree for an extent, with all
    /// coefficients zero.
    pub fn new(degree: usize, shape: [usize; 2]) -> (r: Self)
        requires
            1 <= degree <= DEGREE_LIM,
            1 <= shape@[0] <= DIM_LIM,
            1 <= shape@[1] <= DIM_LIM,
        ensures
            r.basis_wf(),
            r.degree == degree,
            r.shape@ == shape@,
            r.ncoeffs_spec() == tri(degree + 1) - 1,
            forall|i: int|
                0 <= i < r.coeffs_spec().len() ==> #[trigger] r.coeffs_spec()[i] == (Vec2D {
                    x: Fx { m: 0 },
                    y: Fx { m: 0 },
                }),
    {
        proof {
            lemma_tri_closed(degree + 1);
            lemma_tri_mono(degree + 1, DEGREE_LIM + 1);
            lemma_tri_closed(DEGREE_LIM + 1);
        }
        let nc: usize = ((degree + 1) * (degree + 2)) / 2 - 1;
        let mut coeffs: Vec<Vec2D> = Vec::new();
        let mut i: usize = 0;
        while i < nc
            invariant
                i <= nc,
                coeffs@.len() == i,
                forall|j: int|
                    0 <= j < i ==> #[trigger] coeffs@[j] == (Vec2D {
                        x: Fx { m: 0 },
                        y: Fx { m: 0 },
                    }),
            decreases nc - i,
        {
            coeffs.push(Vec2D { x: Fx { m: 0 }, y: Fx { m: 0 } });
            i = i + 1;
        }
        let mut nk_lut: Vec<(usize, usize)> = Vec::new();
        let mut i: usize = 0;
        while i < nc
            invariant
                nc < NCOEFFS_LIM,
                i <= nc,
                nk_lut@.len() == i,
                forall|j: int|
                    0 <= j < i ==> nk_ok(
                        j,
                        (#[trigger] nk_lut@[j]).0 as int,
                        nk_lut@[j].1 as int,
                    ),
            decreases nc - i,
        {
            nk_lut.push(index_to_nk(i));
            i = i + 1;
        }
        BiVarPolyDistortions { degree, coeffs, shape, nk_lut }
    }

    /// Get the number of basis functions.
    pub fn ncoeffs(&self) -> (r: usize)
        requires
            self.basis_wf(),
        ensures
            r == self.ncoeffs_spec(),
    {
        self.coeffs.len()
    }

    /// Export the coefficients as an ordered list of 2-tuples.
    pub fn coeffs(&self) -> (r: Vec<(Fx, Fx)>)
        requires
            self.basis_wf(),
        ensures
            r@ == self.coeffs_spec().map_values(|v: Vec2D| (v.x, v.y)),
    {
        export_coeffs(&self.coeffs)
    }

    /// Import a coefficient list exported by [`Self::coeffs`]. Fails exactly
    /// when the list has the wrong length or an out-of-range entry.
    pub fn load_coeffs(&mut self, coeffs: Vec<(Fx, Fx)>) -> (r: Result<(), MavDACError>)
        requires
            old(self).basis_wf(),
        ensures
            load_coeffs_post(*old(self), *final(self), coeffs@, r),
    {
        let checked = match check_coeffs(coeffs, self.coeffs.len()) {
            Ok(c) => c,
            Err(e) => {
                return Err(e);
            },
        };
        self.set_coeffs(checked);
        Ok(())
    }

    /// Sample basis function `ell` at explicit x/y coordinates.
    pub fn sample_xy(&self, x: Fx, y: Fx, ell: usize) -> (r: Fx)
        requires
            self.basis_wf(),
            self.pos_ok(Vec2D { x, y }),
            ell < self.ncoeffs_spec(),
        ensures
            r@ == self.sample_spec(Vec2D { x, y }, ell as int),
    {
        self.sample(&Vec2D { x, y }, ell)
    }

    /// Evaluate the fitted distortion (including coefficients) at explicit
    /// x/y coordinates.
    pub fn eval_xy(&self, x: Fx, y: Fx) -> (r: (Fx, Fx))
        requires
            self.basis_wf(),
            self.pos_ok(Vec2D { x, y }),
        ensures
            r.0@ == eval_x_v(self, Vec2D { x, y }, self.ncoeffs_spec()),
            r.1@ == eval_y_v(self, Vec2D { x, y }, self.ncoeffs_spec()),
    {
        let v = self.eval(&Vec2D { x, y });
        (v.x, v.y)
    }

    /// Evaluate the fitted distortion at a position.
    pub fn eval(&self, pos: &Vec2D) -> (r: Vec2D)
        requires
            self.basis_wf(),
            self.pos_ok(*pos),
        ensures
            r.x@ == eval_x_v(self, *pos, self.ncoeffs_spec()),
            r.y@ == eval_y_v(self, *pos, self.ncoeffs_spec()),
    {
        evaluate(self, pos)
    }
}

impl DistortionBasis for BiVarPolyDistortions {
    open spec fn basis_wf(&self) -> bool {
        &&& 1 <= self.degree <= DEGREE_LIM
        &&& 1 <= self.shape@[0] <= DIM_LIM
        &&& 1 <= self.shape@[1] <= DIM_LIM
        &&& self.coeffs@.len() == tri(self.degree + 1) - 1
        &&& self.nk_lut@.len() == self.coeffs@.len()
        &&& forall|i: int|
            0 <= i < self.coeffs@.len() ==> abs_v(#[trigger] self.coeffs@[i].x@) <= COEFF_LIM
                && abs_v(self.coeffs@[i].y@) <= COEFF_LIM
        &&& forall|i: int|
            0 <= i < self.nk_lut@.len() ==> nk_ok(
                i,
                (#[trigger] self.nk_lut@[i]).0 as int,
                self.nk_lut@[i].1 as int,
            )
    }

    open spec fn ncoeffs_spec(&self) -> int {
        self.coeffs@.len() as int
    }

    open spec fn coeffs_spec(&self) -> Seq<Vec2D> {
        self.coeffs@
    }

    open spec fn pos_ok(&self, pos: Vec2D) -> bool {
        &&& 0 <= pos.x@ <= self.shape@[1] * FX_SCALE
        &&& 0 <= pos.y@ <= self.shape@[0] * FX_SCALE
    }

    open spec fn sample_spec(&self, pos: Vec2D, index: int) -> int {
        let n = self.nk_lut@[index].0 as int;
        let k = self.nk_lut@[index].1 as int;
        let nx = norm_center_v(pos.x@, self.shape@[1] as int);
        let ny = norm_center_v(pos.y@, self.shape@[0] as int);
        fx_mul_v(fx_pow_v(nx, k as nat), fx_pow_v(ny, (n - k) as nat))
    }

    proof fn lemma_basis_facts(&self) {
        reveal_with_fuel(tri, 4);
        assert(tri(2) == 3);
        lemma_tri_mono(2, self.degree + 1);
        lemma_tri_mono(self.degree + 1, DEGREE_LIM + 1);
        lemma_tri_closed(DEGREE_LIM + 1);
    }

    proof fn lemma_sample_bound(&self, pos: Vec2D, index: int) {
        let n = self.nk_lut@[index].0 as int;
        let k = self.nk_lut@[index].1 as int;
        let nx = norm_center_v(pos.x@, self.shape@[1] as int);
        let ny = norm_center_v(pos.y@, self.shape@[0] as int);
        lemma_norm_bounds(pos.x@, self.shape@[1] as int);
        lemma_norm_bounds(pos.y@, self.shape@[0] as int);
        lemma_tri_closed(n);
        lemma_fx_pow_bound(nx, k as nat);
        lemma_fx_pow_bound(ny, (n - k) as nat);
        lemma_fx_mul_bound(
            fx_pow_v(nx, k as nat),
            fx_pow_v(ny, (n - k) as nat),
            FX_SCALE as int,
            FX_SCALE as int,
        );
    }

    fn sample(&self, pos: &Vec2D, index: usize) -> (r: Fx) {
        let (n, k) = self.nk_lut[index];
        proof {
            assert(nk_ok(index as int, n as int, k as int));
            lemma_tri_closed(n as int);
            lemma_norm_bounds(pos.x@, self.shape@[1] as int);
            lemma_norm_bounds(pos.y@, self.shape@[0] as int);
        }
        let w = self.shape[1];
        let h = self.shape[0];
        let nx = Fx { m: idiv(2 * pos.x.m - (w as i128) * FX_SCALE, w as i128) };
        let ny = Fx { m: idiv(2 * pos.y.m - (h as i128) * FX_SCALE, h as i128) };
        let px = fx_pow(nx, k);
        let py = fx_pow(ny, n - k);
        proof {
            crate::fx::lemma_mul_mag(px@, py@, FX_SCALE as int, FX_SCALE as int);
        }
        px.mul(py)
    }

    fn get_coeffs(&self) -> (r: &Vec<Vec2D>) {
        &self.coeffs
    }

    fn set_coeffs(&mut self, coeffs: Vec<Vec2D>) {
        self.coeffs = coeffs;
    }
}

/// Export a coefficient vector as an ordered list of 2-tuples.
fn export_coeffs(coeffs: &Vec<Vec2D>) -> (r: Vec<(Fx, Fx)>)
    ensures
        r@ == coeffs@.map_values(|v: Vec2D| (v.x, v.y)),
{
    let mut out: Vec<(Fx, Fx)> = Vec::new();
    let mut i: usize = 0;
    while i < coeffs.len()
        invariant
            i <= coeffs@.len(),
            out@ == coeffs@.take(i as int).map_values(|v: Vec2D| (v.x, v.y)),
        decreases coeffs@.len() - i,
    {
        out.push((coeffs[i].x, coeffs[i].y));
        proof {
            assert(coeffs@.take(i + 1).drop_last() =~= coeffs@.take(i as int));
            assert(coeffs@.take(i + 1).map_values(|v: Vec2D| (v.x, v.y)) =~= coeffs@.take(
                i as int,
            ).map_values(|v: Vec2D| (v.x, v.y)).push((coeffs@[i as int].x, coeffs@[i as int].y)));
        }
        i = i + 1;
    }
    proof {
        assert(coeffs@.take(coeffs@.len() as int) =~= coeffs@);
    }
    out
}

/// What loading a coefficient list does: on success the coefficients are
/// replaced by the list (as 2D vectors) and everything else is unchanged; it
/// fails exactly on a length mismatch or an out-of-range entry, leaving the
/// basis unchanged.
pub open spec fn load_coeffs_post<B: DistortionBasis>(
    pre: B,
    post: B,
    pairs: Seq<(Fx, Fx)>,
    r: Result<(), MavDACError>,
) -> bool {
    match r {
        Ok(()) => {
            &&& pairs.len() == pre.ncoeffs_spec()
            &&& (forall|i: int|
                0 <= i < pairs.len() ==> abs_v((#[trigger] pairs[i]).0@) <= COEFF_LIM && abs_v(
                    pairs[i].1@,
                ) <= COEFF_LIM)
            &&& post.basis_wf()
            &&& post.coeffs_spec() == pairs.map_values(|p: (Fx, Fx)| (Vec2D { x: p.0, y: p.1 }))
            &&& post.ncoeffs_spec() == pre.ncoeffs_spec()
            &&& (forall|p: Vec2D| #[trigger] post.pos_ok(p) == pre.pos_ok(p))
            &&& forall|p: Vec2D, i: int|
                #[trigger] post.sample_spec(p, i) == pre.sample_spec(p, i)
        },
        Err(e) => {
            &&& e == MavDACError::Precondition
            &&& post == pre
            &&& !(pairs.len() == pre.ncoeffs_spec() && (forall|i: int|
                0 <= i < pairs.len() ==> abs_v((#[trigger] pairs[i]).0@) <= COEFF_LIM && abs_v(
                    pairs[i].1@,
                ) <= COEFF_LIM))
        },
    }
}

/// Validate an imported coefficient list: the length must match and every
/// entry must be in range.
fn check_coeffs(coeffs: Vec<(Fx, Fx)>, expect: usize) -> (r: Result<Vec<Vec2D>, MavDACError>)
    ensures
        match r {
            Ok(v) => {
                &&& coeffs@.len() == expect
                &&& (forall|i: int|
                    0 <= i < coeffs@.len() ==> abs_v((#[trigger] coeffs@[i]).0@) <= COEFF_LIM
                        && abs_v(coeffs@[i].1@) <= COEFF_LIM)
                &&& v@ == coeffs@.map_values(|p: (Fx, Fx)| (Vec2D { x: p.0, y: p.1 }))
            },
            Err(e) => {
                &&& e == MavDACError::Precondition
                &&& !(coeffs@.len() == expect && (forall|i: int|
                    0 <= i < coeffs@.len() ==> abs_v((#[trigger] coeffs@[i]).0@) <= COEFF_LIM
                        && abs_v(coeffs@[i].1@) <= COEFF_LIM))
            },
        },
{
    if coeffs.len() != expect {
        return Err(MavDACError::Precondition);
    }
    let mut out: Vec<Vec2D> = Vec::new();
    let mut i: usize = 0;
    while i < coeffs.len()
        invariant
            i <= coeffs@.len(),
            forall|j: int|
                0 <= j < i ==> abs_v((#[trigger] coeffs@[j]).0@) <= COEFF_LIM && abs_v(
                    coeffs@[j].1@,
                ) <= COEFF_LIM,
            out@ == coeffs@.take(i as int).map_values(|p: (Fx, Fx)| (Vec2D { x: p.0, y: p.1 })),
        decreases coeffs@.len() - i,
    {
        let (x, y) = coeffs[i];
        if x.m < -COEFF_LIM || x.m > COEFF_LIM || y.m < -COEFF_LIM || y.m > COEFF_LIM {
            return Err(MavDACError::Precondition);
        }
        out.push(Vec2D { x, y });
        proof {
            assert(coeffs@.take(i + 1).drop_last() =~= coeffs@.take(i as int));
            assert(coeffs@.take(i + 1).map_values(|p: (Fx, Fx)| Vec2D { x: p.0, y: p.1 })
                =~= coeffs@.take(i as int).map_values(|p: (Fx, Fx)| Vec2D { x: p.0, y: p.1 }).push(
                Vec2D { x: coeffs@[i as int].0, y: coeffs@[i as int].1 },
            ));
        }
        i = i + 1;
    }
    proof {
        assert(coeffs@.take(coeffs@.len() as int) =~= coeffs@);
    }
    Ok(out)
}

/// Bivariate Fourier distortion basis.
///
/// Maximum frequency `F` gives `4 F^2` basis functions: index `i` selects
/// the frequency pair `(pi * ((i/4)/F mod F), pi * ((i/4) mod F))` and one
/// of the four products cos*cos, cos*sin, sin*cos, sin*sin (by `i mod 4`).
/// Positions are scaled by the extent (no recentring) before evaluation.
pub struct BiVarFourierDistortions {
    /// maximum frequency (half periods per field)
    pub max_freq: usize,
    /// coefficients of the distortions, one per basis index
    pub coeffs: Vec<Vec2D>,
    /// shape of the target extent, `[height, width]`
    pub shape: [usize; 2],
}

impl BiVarFourierDistortions {
    /// Construct the Fourier basis of a maximum frequency for an extent,
    /// with all coefficients zero.
    pub fn new(max_freq: usize, shape: [usize; 2]) -> (r: Self)
        requires
            1 <= max_freq <= FREQ_LIM,
            1 <= shape@[0] <= DIM_LIM,
            1 <= shape@[1] <= DIM_LIM,
        ensures
            r.basis_wf(),
            r.max_freq == max_freq,
            r.shape@ == shape@,
            r.ncoeffs_spec() == 4 * max_freq * max_freq,
            forall|i: int|
                0 <= i < r.coeffs_spec().len() ==> #[trigger] r.coeffs_spec()[i] == (Vec2D {
                    x: Fx { m: 0 },
                    y: Fx { m: 0 },
                }),
    {
        proof {
            assert(4 * max_freq * max_freq <= 4 * FREQ_LIM * FREQ_LIM) by (nonlinear_arith)
                requires
                    1 <= max_freq <= FREQ_LIM,
            ;
        }
        let nc: usize = 4 * max_freq * max_freq;
        let mut coeffs: Vec<Vec2D> = Vec::new();
        let mut i: usize = 0;
        while i < nc
            invariant
                i <= nc,
                coeffs@.len() == i,
                forall|j: int|
                    0 <= j < i ==> #[trigger] coeffs@[j] == (Vec2D {
                        x: Fx { m: 0 },
                        y: Fx { m: 0 },
                    }),
            decreases nc - i,
        {
            coeffs.push(Vec2D { x: Fx { m: 0 }, y: Fx { m: 0 } });
            i = i + 1;
        }
        BiVarFourierDistortions { max_freq, coeffs, shape }
    }

    /// Get the number of basis functions.
    pub fn ncoeffs(&self) -> (r: usize)
        requires
            self.basis_wf(),
        ensures
            r == self.ncoeffs_spec(),
    {
        self.coeffs.len()
    }

    /// Export the coefficients as an ordered list of 2-tuples.
    pub fn coeffs(&self) -> (r: Vec<(Fx, Fx)>)
        requires
            self.basis_wf(),
        ensures
            r@ == self.coeffs_spec().map_values(|v: Vec2D| (v.x, v.y)),
    {
        export_coeffs(&self.coeffs)
    }

    /// Import a coefficient list exported by [`Self::coeffs`]. Fails exactly
    /// when the list has the wrong length or an out-of-range entry.
    pub fn load_coeffs(&mut self, coeffs: Vec<(Fx, Fx)>) -> (r: Result<(), MavDACError>)
        requires
            old(self).basis_wf(),
        ensures
            load_coeffs_post(*old(self), *final(self), coeffs@, r),
    {
        let checked = match check_coeffs(coeffs, self.coeffs.len()) {
            Ok(c) => c,
            Err(e) => {
                return Err(e);
            },
        };
        self.set_coeffs(checked);
        Ok(())
    }

    /// Sample basis function `ell` at explicit x/y coordinates.
    pub fn sample_xy(&self, x: Fx, y: Fx, ell: usize) -> (r: Fx)
        requires
            self.basis_wf(),
            self.pos_ok(Vec2D { x, y }),
            ell < self.ncoeffs_spec(),
        ensures
            r@ == self.sample_spec(Vec2D { x, y }, ell as int),
    {
        self.sample(&Vec2D { x, y }, ell)
    }

    /// Evaluate the fitted distortion (including coefficients) at explicit
    /// x/y coordinates.
    pub fn eval_xy(&self, x: Fx, y: Fx) -> (r: (Fx, Fx))
        requires
            self.basis_wf(),
            self.pos_ok(Vec2D { x, y }),
        ensures
            r.0@ == eval_x_v(self, Vec2D { x, y }, self.ncoeffs_spec()),
            r.1@ == eval_y_v(self, Vec2D { x, y }, self.ncoeffs_spec()),
    {
        let v = self.eval(&Vec2D { x, y });
        (v.x, v.y)
    }

    /// Evaluate the fitted distortion at a position.
    pub fn eval(&self, pos: &Vec2D) -> (r: Vec2D)
        requires
            self.basis_wf(),
            self.pos_ok(*pos),
        ensures
            r.x@ == eval_x_v(self, *pos, self.ncoeffs_spec()),
            r.y@ == eval_y_v(self, *pos, self.ncoeffs_spec()),
    {
        evaluate(self, pos)
    }
}

impl DistortionBasis for BiVarFourierDistortions {
    open spec fn basis_wf(&self) -> bool {
        &&& 1 <= self.max_freq <= FREQ_LIM
        &&& 1 <= self.shape@[0] <= DIM_LIM
        &&& 1 <= self.shape@[1] <= DIM_LIM
        &&& self.coeffs@.len() == 4 * self.max_freq * self.max_freq
        &&& forall|i: int|
            0 <= i < self.coeffs@.len() ==> abs_v(#[trigger] self.coeffs@[i].x@) <= COEFF_LIM
                && abs_v(self.coeffs@[i].y@) <= COEFF_LIM
    }

    open spec fn ncoeffs_spec(&self) -> int {
        self.coeffs@.len() as int
    }

    open spec fn coeffs_spec(&self) -> Seq<Vec2D> {
        self.coeffs@
    }

    open spec fn pos_ok(&self, pos: Vec2D) -> bool {
        &&& 0 <= pos.x@ <= self.shape@[1] * FX_SCALE
        &&& 0 <= pos.y@ <= self.shape@[0] * FX_SCALE
    }

    open spec fn sample_spec(&self, pos: Vec2D, index: int) -> int {
        let f = self.max_freq as int;
        let qx = ((index / 4) / f) % f;
        let qy = (index / 4) % f;
        let nx = norm_extent_v(pos.x@, self.shape@[1] as int);
        let ny = norm_extent_v(pos.y@, self.shape@[0] as int);
        let ax = fx_mul_v(qx * FX_PI, nx);
        let ay = fx_mul_v(qy * FX_PI, ny);
        if index % 4 == 0 {
            fx_mul_v(fx_cos_v(ax), fx_cos_v(ay))
        } else if index % 4 == 1 {
            fx_mul_v(fx_cos_v(ax), fx_sin_v(ay))
        } else if index % 4 == 2 {
            fx_mul_v(fx_sin_v(ax), fx_cos_v(ay))
        } else {
            fx_mul_v(fx_sin_v(ax), fx_sin_v(ay))
        }
    }

    proof fn lemma_basis_facts(&self) {
        assert(0 < 4 * self.max_freq * self.max_freq <= 4 * FREQ_LIM * FREQ_LIM)
            by (nonlinear_arith)
            requires
                1 <= self.max_freq <= FREQ_LIM,
        ;
    }

    proof fn lemma_sample_bound(&self, pos: Vec2D, index: int) {
        lemma_fourier_args(self, pos, index);
        let f = self.max_freq as int;
        let qx = ((index / 4) / f) % f;
        let qy = (index / 4) % f;
        let nx = norm_extent_v(pos.x@, self.shape@[1] as int);
        let ny = norm_extent_v(pos.y@, self.shape@[0] as int);
        let ax = fx_mul_v(qx * FX_PI, nx);
        let ay = fx_mul_v(qy * FX_PI, ny);
        lemma_trig_bounds(ax);
        lemma_trig_bounds(ay);
        lemma_fx_mul_bound(fx_cos_v(ax), fx_cos_v(ay), FX_SCALE as int, FX_SCALE as int);
        lemma_fx_mul_bound(fx_cos_v(ax), fx_sin_v(ay), FX_SCALE as int, FX_SCALE as int);
        lemma_fx_mul_bound(fx_sin_v(ax), fx_cos_v(ay), FX_SCALE as int, FX_SCALE as int);
        lemma_fx_mul_bound(fx_sin_v(ax), fx_sin_v(ay), FX_SCALE as int, FX_SCALE as int);
    }

    fn sample(&self, pos: &Vec2D, index: usize) -> (r: Fx) {
        proof {
            lemma_fourier_args(self, *pos, index as int);
            lemma_trig_bounds(
                fx_mul_v(
                    (((index as int / 4) / (self.max_freq as int)) % (self.max_freq as int))
                        * FX_PI,
                    norm_extent_v(pos.x@, self.shape@[1] as int),
                ),
            );
            lemma_trig_bounds(
                fx_mul_v(
                    ((index as int / 4) % (self.max_freq as int)) * FX_PI,
                    norm_extent_v(pos.y@, self.shape@[0] as int),
                ),
            );
        }
        let f = self.max_freq;
        let q = index / 4;
        let qx: i128 = ((q / f) % f) as i128;
        let qy: i128 = (q % f) as i128;
        let w = self.shape[1];
        let h = self.shape[0];
        let nx = Fx { m: idiv(pos.x.m, w as i128) };
        let ny = Fx { m: idiv(pos.y.m, h as i128) };
        proof {
            crate::fx::lemma_mul_mag(
                qx as int * FX_PI,
                nx@,
                (FREQ_LIM as int) * FX_PI,
                FX_SCALE as int,
            );
            crate::fx::lemma_mul_mag(
                qy as int * FX_PI,
                ny@,
                (FREQ_LIM as int) * FX_PI,
                FX_SCALE as int,
            );
        }
        let ax = Fx { m: qx * FX_PI }.mul(nx);
        let ay = Fx { m: qy * FX_PI }.mul(ny);
        let vx = if index % 4 == 0 || index % 4 == 1 {
            fx_cos(ax)
        } else {
            fx_sin(ax)
        };
        let vy = if index % 4 == 0 || index % 4 == 2 {
            fx_cos(ay)
        } else {
            fx_sin(ay)
        };
        proof {
            crate::fx::lemma_mul_mag(vx@, vy@, 2 * FX_SCALE as int, 2 * FX_SCALE as int);
        }
        vx.mul(vy)
    }

    fn get_coeffs(&self) -> (r: &Vec<Vec2D>) {
        &self.coeffs
    }

    fn set_coeffs(&mut self, coeffs: Vec<Vec2D>) {
        self.coeffs = coeffs;
    }
}

/// The frequency factors of a Fourier index are small, and the scaled
/// arguments handed to sine and cosine stay within their accepted range.
proof fn lemma_fourier_args(b: &BiVarFourierDistortions, pos: Vec2D, index: int)
    requires
        b.basis_wf(),
        b.pos_ok(pos),
        0 <= index,
    ensures
        0 <= ((index / 4) / (b.max_freq as int)) % (b.max_freq as int) < b.max_freq,
        0 <= (index / 4) % (b.max_freq as int) < b.max_freq,
        abs_v(norm_extent_v(pos.x@, b.shape@[1] as int)) <= FX_SCALE,
        abs_v(norm_extent_v(pos.y@, b.shape@[0] as int)) <= FX_SCALE,
        abs_v(
            fx_mul_v(
                (((index / 4) / (b.max_freq as int)) % (b.max_freq as int)) * FX_PI,
                norm_extent_v(pos.x@, b.shape@[1] as int),
            ),
        ) <= 0x4000_0000,
        abs_v(
            fx_mul_v(
                ((index / 4) % (b.max_freq as int)) * FX_PI,
                norm_extent_v(pos.y@, b.shape@[0] as int),
            ),
        ) <= 0x4000_0000,
{
    let f = b.max_freq as int;
    let qx = ((index / 4) / f) % f;
    let qy = (index / 4) % f;
    vstd::arithmetic::div_mod::lemma_mod_bound((index / 4) / f, f);
    vstd::arithmetic::div_mod::lemma_mod_bound(index / 4, f);
    lemma_norm_bounds(pos.x@, b.shape@[1] as int);
    lemma_norm_bounds(pos.y@, b.shape@[0] as int);
    crate::fx::lemma_mul_mag(qx, FX_PI as int, FREQ_LIM as int, FX_PI as int);
    crate::fx::lemma_mul_mag(qy, FX_PI as int, FREQ_LIM as int, FX_PI as int);
    lemma_fx_mul_bound(
        qx * FX_PI,
        norm_extent_v(pos.x@, b.shape@[1] as int),
        (FREQ_LIM as int) * FX_PI,
        FX_SCALE as int,
    );
    lemma_fx_mul_bound(
        qy * FX_PI,
        norm_extent_v(pos.y@, b.shape@[0] as int),
        (FREQ_LIM as int) * FX_PI,
        FX_SCALE as int,
    );
}

/// Law (round trip): two well-formed bases of the same family with equal
/// coefficients — in particular, one loaded from the other's exported
/// coefficient list — evaluate identically everywhere.
pub proof fn lemma_coeff_round_trip<B: DistortionBasis>(a: &B, b: &B, pos: Vec2D, n: int)
    requires
        a.basis_wf(),
        b.basis_wf(),
        a.coeffs_spec() == b.coeffs_spec(),
        a.ncoeffs_spec() == b.ncoeffs_spec(),
        forall|p: Vec2D, i: int| #[trigger] a.sample_spec(p, i) == b.sample_spec(p, i),
        0 <= n <= a.ncoeffs_spec(),
    ensures
        eval_x_v(a, pos, n) == eval_x_v(b, pos, n),
        eval_y_v(a, pos, n) == eval_y_v(b, pos, n),
    decreases n,
{
    if n > 0 {
        lemma_coeff_round_trip(a, b, pos, n - 1);
    }
}

} // verus!
