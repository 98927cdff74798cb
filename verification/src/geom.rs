//! Geometry of the calibration pattern.
//!
//! A [`Vec2D`] is a position or displacement in pixel units. A [`Grid`]
//! parameterizes the hexagonal lattice of calibration pinholes; its
//! enumeration of nominal points inside an image extent is a pure function of
//! the grid parameters and the extent, with a stable row-major order that
//! downstream exposure pairing relies on. A [`Centroid`] is one measured
//! calibration point.
use vstd::prelude::*;

use crate::errors::MavDACError;
use crate::fx::abs_v;
use crate::fx::fx_mul_v;
use crate::fx::lemma_fx_mul_bound;
use crate::fx::lemma_mul_mag;
use crate::fx::lemma_tdiv_mag;
use crate::fx::tdiv;
use crate::fx::Fx;
use crate::fx::FX_LIM;
use crate::fx::FX_SCALE;
use crate::trig::fx_cos;
use crate::trig::fx_cos_v;
use crate::trig::fx_sin;
use crate::trig::fx_sin_v;
use crate::trig::lemma_trig_bounds;
use crate::trig::quadrant_v;
use crate::trig::quarter_turns_v;
use crate::trig::reduced_arg_v;
use crate::trig::FX_HALF_PI;
use crate::trig::TRIG_LIM;

verus! {

/// The fixed-point mantissa nearest to sqrt(3)/2, the row spacing of a unit
/// hexagonal lattice.
pub const SQRT3_HALF: i128 = 56756;

/// Largest mantissa magnitude accepted for grid parameters (pitch, offset)
/// and for positions handed to the centroider; keeps every intermediate of
/// the enumeration far from `i128` overflow.
pub const GRID_PAR_LIM: i128 = 0x100_0000_0000; // 2^40

/// Largest image dimension (pixels per axis) the library accepts.
pub const DIM_LIM: usize = 32768;

/// A 2D vector: float-valued pixel positions and displacements in exact
/// fixed-point form.
#[derive(Clone, Copy, Debug, PartialEq, Eq, Structural)]
pub struct Vec2D {
    pub x: Fx,
    pub y: Fx,
}

/// The `Vec2D` with the given mantissas (spec-level constructor).
pub open spec fn vec2_v(mx: int, my: int) -> Vec2D {
    Vec2D { x: Fx { m: mx as i128 }, y: Fx { m: my as i128 } }
}

impl Vec2D {
    /// Construct a vector from its two components.
    pub fn new(x: Fx, y: Fx) -> (r: Vec2D)
        ensures
            r.x == x,
            r.y == y,
    {
        Vec2D { x, y }
    }

    /// The horizontal component.
    pub fn x(&self) -> (r: Fx)
        ensures
            r == self.x,
    {
        self.x
    }

    /// The vertical component.
    pub fn y(&self) -> (r: Fx)
        ensures
            r == self.y,
    {
        self.y
    }

    /// Componentwise exact addition.
    pub fn add(self, rhs: Vec2D) -> (r: Vec2D)
        requires
            -FX_LIM <= self.x@ + rhs.x@ <= FX_LIM,
            -FX_LIM <= self.y@ + rhs.y@ <= FX_LIM,
        ensures
            r.x@ == self.x@ + rhs.x@,
            r.y@ == self.y@ + rhs.y@,
    {
        Vec2D { x: self.x.add(rhs.x), y: self.y.add(rhs.y) }
    }

    /// Componentwise exact subtraction.
    pub fn sub(self, rhs: Vec2D) -> (r: Vec2D)
        requires
            -FX_LIM <= self.x@ - rhs.x@ <= FX_LIM,
            -FX_LIM <= self.y@ - rhs.y@ <= FX_LIM,
        ensures
            r.x@ == self.x@ - rhs.x@,
            r.y@ == self.y@ - rhs.y@,
    {
        Vec2D { x: self.x.sub(rhs.x), y: self.y.sub(rhs.y) }
    }

    /// Scaling by a fixed-point factor, truncating each component.
    pub fn mul(self, rhs: Fx) -> (r: Vec2D)
        requires
            -FX_LIM <= self.x@ * rhs@ <= FX_LIM,
            -FX_LIM <= self.y@ * rhs@ <= FX_LIM,
        ensures
            r.x@ == fx_mul_v(self.x@, rhs@),
            r.y@ == fx_mul_v(self.y@, rhs@),
    {
        Vec2D { x: self.x.mul(rhs), y: self.y.mul(rhs) }
    }
}

/// A parametric point-generating pattern: the hexagonal pinhole grid,
/// described by the separation of adjacent pinholes (pixels), the rotation of
/// the pattern about the image centre (radians), and the offset of the
/// pattern from the image centre (pixels).
#[derive(Clone, Copy, Debug, PartialEq, Eq, Structural)]
pub enum Grid {
    /// Hexagonal grid, with a pinhole at the centre of the image by default.
    Hex { pitch: Fx, rotation: Fx, offset: Vec2D },
}

/// The pitch mantissa of a grid.
pub open spec fn pitch_v(g: Grid) -> int {
    match g {
        Grid::Hex { pitch, rotation, offset } => pitch@,
    }
}

/// The rotation mantissa of a grid.
pub open spec fn rot_v(g: Grid) -> int {
    match g {
        Grid::Hex { pitch, rotation, offset } => rotation@,
    }
}

/// The offset of a grid.
pub open spec fn offset_v(g: Grid) -> Vec2D {
    match g {
        Grid::Hex { pitch, rotation, offset } => offset,
    }
}

/// Machine-range bounds on grid parameters under which the enumeration is
/// free of overflow.
pub open spec fn grid_in_range(g: Grid) -> bool {
    &&& abs_v(pitch_v(g)) <= GRID_PAR_LIM
    &&& abs_v(rot_v(g)) <= TRIG_LIM
    &&& abs_v(offset_v(g).x@) <= GRID_PAR_LIM
    &&& abs_v(offset_v(g).y@) <= GRID_PAR_LIM
}

/// Radius, in lattice steps, of the oversized square lattice that is
/// generated before filtering: four times the larger extent, enough to
/// survive any rotation and offset without losing coverage.
pub open spec fn grid_radius(w: int, h: int) -> int {
    4 * (if w >= h {
        w
    } else {
        h
    })
}

/// The centred lattice coordinate of index `i`, scaled by the pitch
/// (mantissa units): `(i - radius) * pitch`.
pub open spec fn lat_v(g: Grid, w: int, h: int, i: int) -> int {
    (i - grid_radius(w, h)) * pitch_v(g)
}

/// The x coordinate after the hexagonal shear: `x + y/2`.
pub open spec fn hexx_v(g: Grid, w: int, h: int, ix: int, iy: int) -> int {
    lat_v(g, w, h, ix) + tdiv(lat_v(g, w, h, iy), 2)
}

/// The y coordinate after the hexagonal shear: `y * sqrt(3)/2`.
pub open spec fn hexy_v(g: Grid, w: int, h: int, iy: int) -> int {
    fx_mul_v(lat_v(g, w, h, iy), SQRT3_HALF as int)
}

/// The sheared point rotated by the grid rotation, x component.
pub open spec fn rotx_v(g: Grid, w: int, h: int, ix: int, iy: int) -> int {
    fx_mul_v(hexx_v(g, w, h, ix, iy), fx_cos_v(rot_v(g))) - fx_mul_v(
        hexy_v(g, w, h, iy),
        fx_sin_v(rot_v(g)),
    )
}

/// The sheared point rotated by the grid rotation, y component.
pub open spec fn roty_v(g: Grid, w: int, h: int, ix: int, iy: int) -> int {
    fx_mul_v(hexx_v(g, w, h, ix, iy), fx_sin_v(rot_v(g))) + fx_mul_v(
        hexy_v(g, w, h, iy),
        fx_cos_v(rot_v(g)),
    )
}

/// The candidate point of lattice index `(ix, iy)`: the integer lattice is
/// centred, scaled by the pitch, sheared into a hexagonal lattice, rotated,
/// shifted by the grid offset, and recentred on the extent.
pub open spec fn candidate_xy(g: Grid, w: int, h: int, ix: int, iy: int) -> (int, int) {
    let px = rotx_v(g, w, h, ix, iy) + offset_v(g).x@ + (w / 2) * (FX_SCALE as int) - (
    FX_SCALE as int) / 2;
    let py = roty_v(g, w, h, ix, iy) + offset_v(g).y@ + (h / 2) * (FX_SCALE as int) - (
    FX_SCALE as int) / 2;
    (px, py)
}

/// The candidate at flat row-major index `i` (`ix` outer, `iy` inner).
pub open spec fn cand_at(g: Grid, w: int, h: int, i: int) -> Vec2D {
    let tworad = 2 * grid_radius(w, h);
    let pq = candidate_xy(g, w, h, i / tworad, i % tworad);
    vec2_v(pq.0, pq.1)
}

/// The first `n` candidates, in generation order.
pub open spec fn cand_prefix(g: Grid, w: int, h: int, n: nat) -> Seq<Vec2D> {
    Seq::new(n, |i: int| cand_at(g, w, h, i))
}

/// Whether a point lies inside the half-open extent
/// `[0, w) x [0, h)` (pixel units).
pub open spec fn in_extent(p: Vec2D, w: int, h: int) -> bool {
    &&& 0 <= p.x@ < w * FX_SCALE
    &&& 0 <= p.y@ < h * FX_SCALE
}

/// The subsequence of points inside the extent, order preserved.
pub open spec fn filter_extent(s: Seq<Vec2D>, w: int, h: int) -> Seq<Vec2D>
    decreases s.len(),
{
    if s.len() == 0 {
        Seq::empty()
    } else {
        let rest = filter_extent(s.drop_last(), w, h);
        if in_extent(s.last(), w, h) {
            rest.push(s.last())
        } else {
            rest
        }
    }
}

/// Appending one point to the input extends the filtered output by that
/// point exactly when it lies inside the extent.
pub proof fn lemma_filter_push(s: Seq<Vec2D>, p: Vec2D, w: int, h: int)
    ensures
        filter_extent(s.push(p), w, h) == if in_extent(p, w, h) {
            filter_extent(s, w, h).push(p)
        } else {
            filter_extent(s, w, h)
        },
{
    assert(s.push(p).drop_last() =~= s);
    assert(s.push(p).last() == p);
}

/// Every point the extent filter keeps lies inside the extent.
pub proof fn lemma_filter_extent_elems(s: Seq<Vec2D>, w: int, h: int)
    ensures
        forall|k: int|
            0 <= k < filter_extent(s, w, h).len() ==> in_extent(
                #[trigger] filter_extent(s, w, h)[k],
                w,
                h,
            ),
    decreases s.len(),
{
    if s.len() > 0 {
        lemma_filter_extent_elems(s.drop_last(), w, h);
        let rest = filter_extent(s.drop_last(), w, h);
        let f = filter_extent(s, w, h);
        if in_extent(s.last(), w, h) {
            assert forall|k: int| 0 <= k < f.len() implies in_extent(f[k], w, h) by {
                if k < rest.len() {
                    assert(f[k] == rest[k]);
                } else {
                    assert(f[k] == s.last());
                }
            }
        }
    }
}

/// All nominal pinhole positions of a grid inside an extent, in generation
/// order: the filtered candidate sequence.
pub open spec fn spec_all_points(g: Grid, w: int, h: int) -> Seq<Vec2D> {
    let tworad = 2 * grid_radius(w, h);
    filter_extent(cand_prefix(g, w, h, (tworad * tworad) as nat), w, h)
}

/// Every candidate mantissa stays below this bound for in-range parameters.
pub const CAND_LIM: i128 = 0x4000_0000_0000_0000; // 2^62

/// Bound on a centred, pitch-scaled lattice coordinate:
/// `(8 * DIM_LIM) * GRID_PAR_LIM == 2^57`.
pub const LAT_LIM: i128 = 0x200_0000_0000_0000;

/// Magnitude bounds on every intermediate of the candidate computation, for
/// in-range grid parameters and extents.
pub proof fn lemma_candidate_bounds(g: Grid, w: int, h: int, ix: int, iy: int)
    requires
        grid_in_range(g),
        0 <= w <= DIM_LIM,
        0 <= h <= DIM_LIM,
        0 <= ix <= 2 * grid_radius(w, h),
        0 <= iy <= 2 * grid_radius(w, h),
    ensures
        abs_v(lat_v(g, w, h, ix)) <= LAT_LIM,
        abs_v(lat_v(g, w, h, iy)) <= LAT_LIM,
        abs_v(hexx_v(g, w, h, ix, iy)) <= 2 * LAT_LIM,
        abs_v(hexy_v(g, w, h, iy)) <= LAT_LIM,
        abs_v(lat_v(g, w, h, iy) * SQRT3_HALF) <= LAT_LIM * FX_SCALE,
        abs_v(hexx_v(g, w, h, ix, iy) * fx_cos_v(rot_v(g))) <= 4 * LAT_LIM * FX_SCALE,
        abs_v(hexx_v(g, w, h, ix, iy) * fx_sin_v(rot_v(g))) <= 4 * LAT_LIM * FX_SCALE,
        abs_v(hexy_v(g, w, h, iy) * fx_cos_v(rot_v(g))) <= 2 * LAT_LIM * FX_SCALE,
        abs_v(hexy_v(g, w, h, iy) * fx_sin_v(rot_v(g))) <= 2 * LAT_LIM * FX_SCALE,
        abs_v(rotx_v(g, w, h, ix, iy)) <= 8 * LAT_LIM,
        abs_v(roty_v(g, w, h, ix, iy)) <= 8 * LAT_LIM,
        abs_v(candidate_xy(g, w, h, ix, iy).0) <= CAND_LIM,
        abs_v(candidate_xy(g, w, h, ix, iy).1) <= CAND_LIM,
{
    let rad = grid_radius(w, h);
    let p = pitch_v(g);
    let c = fx_cos_v(rot_v(g));
    let s = fx_sin_v(rot_v(g));
    let xs = lat_v(g, w, h, ix);
    let ys = lat_v(g, w, h, iy);
    let xh = hexx_v(g, w, h, ix, iy);
    let yh = hexy_v(g, w, h, iy);
    lemma_trig_bounds(rot_v(g));
    // lattice index magnitude <= rad <= 4 * DIM_LIM == 131072
    lemma_mul_mag(ix - rad, p, 131072, GRID_PAR_LIM as int);
    lemma_mul_mag(iy - rad, p, 131072, GRID_PAR_LIM as int);
    lemma_tdiv_mag(ys, 2, LAT_LIM as int);
    // sqrt(3)/2 < 1, so the shear does not grow the coordinate
    lemma_fx_mul_bound(ys, SQRT3_HALF as int, LAT_LIM as int, FX_SCALE as int);
    lemma_mul_mag(ys, SQRT3_HALF as int, LAT_LIM as int, FX_SCALE as int);
    lemma_mul_mag(xh, c, 2 * LAT_LIM as int, 2 * FX_SCALE as int);
    lemma_mul_mag(xh, s, 2 * LAT_LIM as int, 2 * FX_SCALE as int);
    lemma_mul_mag(yh, c, LAT_LIM as int, 2 * FX_SCALE as int);
    lemma_mul_mag(yh, s, LAT_LIM as int, 2 * FX_SCALE as int);
    lemma_fx_mul_bound(xh, c, 2 * LAT_LIM as int, 2 * FX_SCALE as int);
    lemma_fx_mul_bound(xh, s, 2 * LAT_LIM as int, 2 * FX_SCALE as int);
    lemma_fx_mul_bound(yh, c, LAT_LIM as int, 2 * FX_SCALE as int);
    lemma_fx_mul_bound(yh, s, LAT_LIM as int, 2 * FX_SCALE as int);
}

impl Grid {
    /// Shift the grid pattern by a displacement: the same lattice with the
    /// offset moved, used to align the pattern with one exposure.
    pub fn add(self, rhs: Vec2D) -> (r: Grid)
        requires
            -FX_LIM <= offset_v(self).x@ + rhs.x@ <= FX_LIM,
            -FX_LIM <= offset_v(self).y@ + rhs.y@ <= FX_LIM,
        ensures
            pitch_v(r) == pitch_v(self),
            rot_v(r) == rot_v(self),
            offset_v(r).x@ == offset_v(self).x@ + rhs.x@,
            offset_v(r).y@ == offset_v(self).y@ + rhs.y@,
    {
        match self {
            Grid::Hex { pitch, rotation, offset } => Grid::Hex {
                pitch,
                rotation,
                offset: offset.add(rhs),
            },
        }
    }

    /// Determine all nominal pinhole positions for a given extent.
    ///
    /// The output order is stable and reproducible (row-major generation
    /// order before filtering): downstream code pairs points across
    /// exposures by positional identity, so the order is part of the
    /// contract. Fails exactly when the pitch is not positive.
    pub fn all_points(&self, width: usize, height: usize) -> (r: Result<
        Vec<Vec2D>,
        MavDACError,
    >)
        requires
            grid_in_range(*self),
            width <= DIM_LIM,
            height <= DIM_LIM,
        ensures
            match r {
                Ok(v) => pitch_v(*self) > 0 && v@ == spec_all_points(
                    *self,
                    width as int,
                    height as int,
                ),
                Err(e) => pitch_v(*self) <= 0 && e == MavDACError::Geometry,
            },
    {
        let (pitch, rotation, offset) = match *self {
            Grid::Hex { pitch, rotation, offset } => (pitch, rotation, offset),
        };
        if pitch.m <= 0 {
            return Err(MavDACError::Geometry);
        }
        let c = fx_cos(rotation);
        let s = fx_sin(rotation);
        let maxd: usize = if width >= height {
            width
        } else {
            height
        };
        let rad: usize = 4 * maxd;
        let tworad: usize = 2 * rad;
        let ghost g = *self;
        let ghost w = width as int;
        let ghost h = height as int;
        let mut out: Vec<Vec2D> = Vec::new();
        let mut ix: usize = 0;
        while ix < tworad
            invariant
                grid_in_range(g),
                pitch@ == pitch_v(g),
                c@ == fx_cos_v(rot_v(g)),
                s@ == fx_sin_v(rot_v(g)),
                offset == offset_v(g),
                w == width as int,
                h == height as int,
                width <= DIM_LIM,
                height <= DIM_LIM,
                rad == grid_radius(w, h),
                tworad == 2 * rad,
                ix <= tworad,
                out@ == filter_extent(cand_prefix(g, w, h, (ix * tworad) as nat), w, h),
            decreases tworad - ix,
        {
            let mut iy: usize = 0;
            while iy < tworad
                invariant
                    grid_in_range(g),
                    pitch@ == pitch_v(g),
                    c@ == fx_cos_v(rot_v(g)),
                    s@ == fx_sin_v(rot_v(g)),
                    offset == offset_v(g),
                    w == width as int,
                    h == height as int,
                    width <= DIM_LIM,
                    height <= DIM_LIM,
                    rad == grid_radius(w, h),
                    tworad == 2 * rad,
                    ix < tworad,
                    iy <= tworad,
                    out@ == filter_extent(
                        cand_prefix(g, w, h, (ix * tworad + iy) as nat),
                        w,
                        h,
                    ),
                decreases tworad - iy,
            {
                let pt = candidate_point(pitch, c, s, offset, rad, ix, iy, width, height, Ghost(g));
                proof {
                    let n = ix * tworad + iy;
                    vstd::arithmetic::div_mod::lemma_fundamental_div_mod_converse(
                        n as int,
                        tworad as int,
                        ix as int,
                        iy as int,
                    );
                    assert(cand_at(g, w, h, n as int) == vec2_v(
                        candidate_xy(g, w, h, ix as int, iy as int).0,
                        candidate_xy(g, w, h, ix as int, iy as int).1,
                    ));
                    lemma_candidate_bounds(g, w, h, ix as int, iy as int);
                    assert(cand_at(g, w, h, n as int) == pt);
                    assert(cand_prefix(g, w, h, (n + 1) as nat) =~= cand_prefix(
                        g,
                        w,
                        h,
                        n as nat,
                    ).push(cand_at(g, w, h, n as int)));
                    lemma_filter_push(cand_prefix(g, w, h, n as nat), pt, w, h);
                }
                let wlim: i128 = (width as i128) * FX_SCALE;
                let hlim: i128 = (height as i128) * FX_SCALE;
                if pt.x.m >= 0 && pt.x.m < wlim && pt.y.m >= 0 && pt.y.m < hlim {
                    out.push(pt);
                }
                iy = iy + 1;
            }
            ix = ix + 1;
            proof {
                assert((ix - 1) * tworad + tworad == ix * tworad) by (nonlinear_arith);
            }
        }
        proof {
            assert(ix * tworad == tworad * tworad) by (nonlinear_arith)
                requires
                    ix == tworad,
            ;
        }
        Ok(out)
    }
}

/// The grid with its offset shifted by `d` (spec mirror of [`Grid::add`]).
pub open spec fn spec_translate(g: Grid, d: Vec2D) -> Grid {
    match g {
        Grid::Hex { pitch, rotation, offset } => Grid::Hex {
            pitch,
            rotation,
            offset: vec2_v(offset.x@ + d.x@, offset.y@ + d.y@),
        },
    }
}

/// A point shifted by a displacement (exact mantissa addition).
pub open spec fn translate_pt(p: Vec2D, d: Vec2D) -> Vec2D {
    vec2_v(p.x@ + d.x@, p.y@ + d.y@)
}

/// A sequence of points, each shifted by the same displacement.
pub open spec fn translate_seq(s: Seq<Vec2D>, d: Vec2D) -> Seq<Vec2D> {
    s.map_values(|p: Vec2D| translate_pt(p, d))
}

/// Law (determinism): for fixed grid parameters and extent the enumeration
/// is one fixed sequence — same order, same count, on every call.
pub proof fn lemma_enumerate_deterministic(
    g: Grid,
    w: int,
    h: int,
    first: Seq<Vec2D>,
    second: Seq<Vec2D>,
)
    requires
        first == spec_all_points(g, w, h),
        second == spec_all_points(g, w, h),
    ensures
        first == second,
{
}

/// Law (translation equivariance): enumerating a grid whose offset was
/// shifted by `d` yields exactly the candidate points of the original grid,
/// each translated by `d`, intersected with the extent.
pub proof fn lemma_translation_equivariance(g: Grid, d: Vec2D, w: int, h: int)
    requires
        grid_in_range(g),
        grid_in_range(spec_translate(g, d)),
        -FX_LIM <= offset_v(g).x@ + d.x@ <= FX_LIM,
        -FX_LIM <= offset_v(g).y@ + d.y@ <= FX_LIM,
        0 <= w <= DIM_LIM,
        0 <= h <= DIM_LIM,
    ensures
        spec_all_points(spec_translate(g, d), w, h) == filter_extent(
            translate_seq(
                cand_prefix(g, w, h, ((2 * grid_radius(w, h)) * (2 * grid_radius(w, h))) as nat),
                d,
            ),
            w,
            h,
        ),
{
    let gt = spec_translate(g, d);
    let tworad = 2 * grid_radius(w, h);
    let total = (tworad * tworad) as nat;
    assert(tworad * tworad >= 0) by (nonlinear_arith);
    assert forall|i: int| 0 <= i < total implies cand_at(gt, w, h, i) == translate_pt(
        cand_at(g, w, h, i),
        d,
    ) by {
        let ix = i / tworad;
        let iy = i % tworad;
        vstd::arithmetic::div_mod::lemma_fundamental_div_mod(i, tworad);
        vstd::arithmetic::div_mod::lemma_mod_bound(i, tworad);
        assert(0 <= ix <= 2 * grid_radius(w, h)) by {
            vstd::arithmetic::div_mod::lemma_div_pos_is_pos(i, tworad);
            assert(ix <= tworad) by (nonlinear_arith)
                requires
                    tworad > 0,
                    0 <= i < tworad * tworad,
                    i == tworad * ix + iy,
                    0 <= iy < tworad,
            ;
        }
        lemma_candidate_bounds(g, w, h, ix, iy);
        lemma_candidate_bounds(gt, w, h, ix, iy);
        assert(pitch_v(gt) == pitch_v(g) && rot_v(gt) == rot_v(g));
        assert(candidate_xy(gt, w, h, ix, iy).0 == candidate_xy(g, w, h, ix, iy).0 + d.x@);
        assert(candidate_xy(gt, w, h, ix, iy).1 == candidate_xy(g, w, h, ix, iy).1 + d.y@);
    }
    assert(cand_prefix(gt, w, h, total) =~= translate_seq(cand_prefix(g, w, h, total), d));
}

/// Membership in the filtered sequence is membership in the input together
/// with lying inside the extent.
pub proof fn lemma_filter_extent_membership(s: Seq<Vec2D>, w: int, h: int, p: Vec2D)
    ensures
        filter_extent(s, w, h).contains(p) <==> s.contains(p) && in_extent(p, w, h),
    decreases s.len(),
{
    if s.len() > 0 {
        lemma_filter_extent_membership(s.drop_last(), w, h, p);
        let rest = filter_extent(s.drop_last(), w, h);
        let f = filter_extent(s, w, h);
        if in_extent(s.last(), w, h) {
            assert(f == rest.push(s.last()));
            if rest.contains(p) || p == s.last() {
                assert(f.contains(p)) by {
                    if p == s.last() {
                        assert(f[f.len() - 1] == p);
                    } else {
                        let i = choose|i: int| 0 <= i < rest.len() && rest[i] == p;
                        assert(f[i] == p);
                    }
                }
            }
            if f.contains(p) {
                let i = choose|i: int| 0 <= i < f.len() && f[i] == p;
                if i < rest.len() {
                    assert(rest[i] == p);
                }
            }
        }
        if s.drop_last().contains(p) {
            let i = choose|i: int| 0 <= i < s.len() - 1 && s.drop_last()[i] == p;
            assert(s[i] == p);
        }
        if s.contains(p) && p != s.last() {
            let i = choose|i: int| 0 <= i < s.len() && s[i] == p;
            assert(s.drop_last()[i] == p);
        }
    }
}

/// Law (translation equivariance, pointwise): a nominal point whose
/// translate lies inside the extent is a nominal point of the translated
/// grid, and conversely; away from the extent edges the two enumerations are
/// each other's translates.
pub proof fn lemma_translation_equivariance_points(g: Grid, d: Vec2D, w: int, h: int, p: Vec2D)
    requires
        grid_in_range(g),
        grid_in_range(spec_translate(g, d)),
        -FX_LIM <= offset_v(g).x@ + d.x@ <= FX_LIM,
        -FX_LIM <= offset_v(g).y@ + d.y@ <= FX_LIM,
        0 <= w <= DIM_LIM,
        0 <= h <= DIM_LIM,
    ensures
        spec_all_points(g, w, h).contains(p) && in_extent(translate_pt(p, d), w, h)
            ==> spec_all_points(spec_translate(g, d), w, h).contains(translate_pt(p, d)),
        spec_all_points(spec_translate(g, d), w, h).contains(translate_pt(p, d)) && in_extent(
            p,
            w,
            h,
        ) ==> spec_all_points(g, w, h).contains(p),
{
    lemma_translation_equivariance(g, d, w, h);
    let gt = spec_translate(g, d);
    let tworad = 2 * grid_radius(w, h);
    let cands = cand_prefix(g, w, h, (tworad * tworad) as nat);
    let tcands = translate_seq(cands, d);
    let q = translate_pt(p, d);
    lemma_filter_extent_membership(cands, w, h, p);
    lemma_filter_extent_membership(tcands, w, h, q);
    if cands.contains(p) {
        let i = choose|i: int| 0 <= i < cands.len() && cands[i] == p;
        assert(tcands[i] == q);
    }
    if tcands.contains(q) && in_extent(p, w, h) {
        let i = choose|i: int| 0 <= i < tcands.len() && tcands[i] == q;
        assert(tcands[i] == translate_pt(cands[i], d));
        assert(cands[i] == p) by {
            assert(abs_v(cands[i].x@) <= CAND_LIM && abs_v(cands[i].y@) <= CAND_LIM) by {
                let ix = i / tworad;
                let iy = i % tworad;
                vstd::arithmetic::div_mod::lemma_fundamental_div_mod(i, tworad);
                vstd::arithmetic::div_mod::lemma_mod_bound(i, tworad);
                vstd::arithmetic::div_mod::lemma_div_pos_is_pos(i, tworad);
                assert(ix <= tworad) by (nonlinear_arith)
                    requires
                        tworad > 0,
                        0 <= i < tworad * tworad,
                        i == tworad * ix + iy,
                        0 <= iy < tworad,
                ;
                lemma_candidate_bounds(g, w, h, ix, iy);
            }
            assert(abs_v(d.x@) <= 2 * GRID_PAR_LIM && abs_v(d.y@) <= 2 * GRID_PAR_LIM);
            assert(translate_pt(cands[i], d) == q);
            assert(cands[i].x@ + d.x@ == p.x@ + d.x@);
            assert(cands[i].y@ + d.y@ == p.y@ + d.y@);
        }
    }
}

/// The fixed-point cosine of zero is exactly one and its sine exactly zero.
proof fn lemma_trig_zero()
    ensures
        fx_cos_v(0) == FX_SCALE,
        fx_sin_v(0) == 0,
{
    assert(tdiv(0, FX_HALF_PI as int) == 0);
    assert(quarter_turns_v(0) == 0);
    assert(reduced_arg_v(0) == 0);
    assert(tdiv(0, 4) == 0);
    assert(quadrant_v(0) == 0);
    assert(fx_mul_v(0, 0) == 0);
    assert(tdiv(0, 2) == 0 && tdiv(0, 24) == 0 && tdiv(0, 720) == 0 && tdiv(0, 6) == 0 && tdiv(
        0,
        120,
    ) == 0 && tdiv(0, 5040) == 0);
    assert(crate::trig::cos_poly_v(0) == FX_SCALE);
    assert(crate::trig::sin_poly_v(0) == 0);
}

/// For an unrotated grid with a pitch of at least one pixel, distinct
/// lattice indices give distinct candidate points.
proof fn lemma_candidates_injective_unrotated(
    g: Grid,
    w: int,
    h: int,
    ix1: int,
    iy1: int,
    ix2: int,
    iy2: int,
)
    requires
        grid_in_range(g),
        rot_v(g) == 0,
        pitch_v(g) >= FX_SCALE,
        0 <= w <= DIM_LIM,
        0 <= h <= DIM_LIM,
        0 <= ix1 <= 2 * grid_radius(w, h),
        0 <= iy1 <= 2 * grid_radius(w, h),
        0 <= ix2 <= 2 * grid_radius(w, h),
        0 <= iy2 <= 2 * grid_radius(w, h),
        ix1 != ix2 || iy1 != iy2,
    ensures
        candidate_xy(g, w, h, ix1, iy1) != candidate_xy(g, w, h, ix2, iy2),
{
    lemma_trig_zero();
    lemma_candidate_bounds(g, w, h, ix1, iy1);
    lemma_candidate_bounds(g, w, h, ix2, iy2);
    let rad = grid_radius(w, h);
    let p = pitch_v(g);
    let ys1 = lat_v(g, w, h, iy1);
    let ys2 = lat_v(g, w, h, iy2);
    let xh1 = hexx_v(g, w, h, ix1, iy1);
    let xh2 = hexx_v(g, w, h, ix2, iy2);
    let yh1 = hexy_v(g, w, h, iy1);
    let yh2 = hexy_v(g, w, h, iy2);
    // with cosine one and sine zero the rotation is the identity on
    // mantissas
    crate::fx::lemma_tdiv_exact(xh1, FX_SCALE as int);
    crate::fx::lemma_tdiv_exact(xh2, FX_SCALE as int);
    assert(yh1 * 0 == 0 && yh2 * 0 == 0 && xh1 * 0 == 0 && xh2 * 0 == 0) by (nonlinear_arith);
    assert(tdiv(0, FX_SCALE as int) == 0);
    assert(rotx_v(g, w, h, ix1, iy1) == xh1);
    assert(roty_v(g, w, h, ix1, iy1) == yh1);
    assert(rotx_v(g, w, h, ix2, iy2) == xh2);
    assert(roty_v(g, w, h, ix2, iy2) == yh2);
    if iy1 != iy2 {
        // distinct rows: the sheared vertical coordinates differ, because
        // the rows are at least one pixel apart and the shear factor keeps
        // more than two mantissa units of that
        assert(abs_v(ys1 - ys2) >= p) by (nonlinear_arith)
            requires
                ys1 == (iy1 - rad) * p,
                ys2 == (iy2 - rad) * p,
                iy1 != iy2,
                p >= 1,
        ;
        if yh1 == yh2 {
            crate::fx::lemma_tdiv_same_quot(ys1 * SQRT3_HALF, ys2 * SQRT3_HALF, FX_SCALE as int);
            assert(abs_v(ys1 * SQRT3_HALF - ys2 * SQRT3_HALF) >= p * SQRT3_HALF)
                by (nonlinear_arith)
                requires
                    abs_v(ys1 - ys2) >= p,
                    p >= 1,
        ;
            assert(p * SQRT3_HALF >= 2 * FX_SCALE) by (nonlinear_arith)
                requires
                    p >= FX_SCALE,
            ;
            assert(false);
        }
        assert(candidate_xy(g, w, h, ix1, iy1).1 != candidate_xy(g, w, h, ix2, iy2).1);
    } else {
        // same row, distinct columns: the horizontal lattice coordinates
        // differ exactly by a multiple of the pitch
        assert(ys1 == ys2);
        assert(lat_v(g, w, h, ix1) != lat_v(g, w, h, ix2)) by (nonlinear_arith)
            requires
                ix1 != ix2,
                p >= 1,
                lat_v(g, w, h, ix1) == (ix1 - rad) * p,
                lat_v(g, w, h, ix2) == (ix2 - rad) * p,
        ;
        assert(xh1 != xh2);
        assert(candidate_xy(g, w, h, ix1, iy1).0 != candidate_xy(g, w, h, ix2, iy2).0);
    }
}

/// The extent filter keeps a pairwise-distinct sequence pairwise distinct.
proof fn lemma_filter_extent_distinct(s: Seq<Vec2D>, w: int, h: int)
    requires
        forall|i: int, j: int| 0 <= i < j < s.len() ==> s[i] != s[j],
    ensures
        forall|a: int, b: int|
            0 <= a < b < filter_extent(s, w, h).len() ==> filter_extent(s, w, h)[a]
                != filter_extent(s, w, h)[b],
    decreases s.len(),
{
    if s.len() > 0 {
        let prev = s.drop_last();
        assert(forall|i: int, j: int| 0 <= i < j < prev.len() ==> prev[i] != prev[j]) by {
            assert(forall|i: int| 0 <= i < prev.len() ==> prev[i] == s[i]);
        }
        lemma_filter_extent_distinct(prev, w, h);
        let rest = filter_extent(prev, w, h);
        let f = filter_extent(s, w, h);
        if in_extent(s.last(), w, h) {
            assert(f == rest.push(s.last()));
            assert(!rest.contains(s.last())) by {
                lemma_filter_extent_membership(prev, w, h, s.last());
                if prev.contains(s.last()) {
                    let i = choose|i: int| 0 <= i < prev.len() && prev[i] == s.last();
                    assert(s[i] == s.last());
                    assert(s[i] != s[s.len() - 1]);
                }
            }
            assert forall|a: int, b: int| 0 <= a < b < f.len() implies f[a] != f[b] by {
                if b < rest.len() {
                    assert(f[a] == rest[a] && f[b] == rest[b]);
                } else {
                    assert(f[b] == s.last());
                    assert(f[a] == rest[a]);
                    if f[a] == s.last() {
                        assert(rest.contains(s.last())) by {
                            assert(rest[a] == s.last());
                        }
                    }
                }
            }
        }
    }
}

/// Law-supporting lemma (enumeration injectivity): for an unrotated grid
/// with a pitch of at least one pixel, the enumerated nominal points are
/// pairwise distinct, so the index-based pairing of points across exposures
/// never aliases two pinholes.
pub proof fn lemma_all_points_distinct(g: Grid, w: int, h: int)
    requires
        grid_in_range(g),
        rot_v(g) == 0,
        pitch_v(g) >= FX_SCALE,
        0 <= w <= DIM_LIM,
        0 <= h <= DIM_LIM,
    ensures
        forall|a: int, b: int|
            0 <= a < b < spec_all_points(g, w, h).len() ==> spec_all_points(g, w, h)[a]
                != spec_all_points(g, w, h)[b],
{
    let tworad = 2 * grid_radius(w, h);
    let total = (tworad * tworad) as nat;
    assert(tworad * tworad >= 0) by (nonlinear_arith);
    let cands = cand_prefix(g, w, h, total);
    assert forall|i1: int, i2: int| 0 <= i1 < i2 < total implies cands[i1] != cands[i2] by {
        let ix1 = i1 / tworad;
        let iy1 = i1 % tworad;
        let ix2 = i2 / tworad;
        let iy2 = i2 % tworad;
        vstd::arithmetic::div_mod::lemma_fundamental_div_mod(i1, tworad);
        vstd::arithmetic::div_mod::lemma_mod_bound(i1, tworad);
        vstd::arithmetic::div_mod::lemma_fundamental_div_mod(i2, tworad);
        vstd::arithmetic::div_mod::lemma_mod_bound(i2, tworad);
        vstd::arithmetic::div_mod::lemma_div_pos_is_pos(i1, tworad);
        vstd::arithmetic::div_mod::lemma_div_pos_is_pos(i2, tworad);
        assert(ix1 <= tworad && ix2 <= tworad) by (nonlinear_arith)
            requires
                tworad > 0,
                0 <= i1 < tworad * tworad,
                0 <= i2 < tworad * tworad,
                i1 == tworad * ix1 + iy1,
                i2 == tworad * ix2 + iy2,
                0 <= iy1 < tworad,
                0 <= iy2 < tworad,
        ;
        assert(ix1 != ix2 || iy1 != iy2) by (nonlinear_arith)
            requires
                i1 != i2,
                i1 == tworad * ix1 + iy1,
                i2 == tworad * ix2 + iy2,
        ;
        lemma_candidates_injective_unrotated(g, w, h, ix1, iy1, ix2, iy2);
        lemma_candidate_bounds(g, w, h, ix1, iy1);
        lemma_candidate_bounds(g, w, h, ix2, iy2);
        assert(cands[i1] == vec2_v(
            candidate_xy(g, w, h, ix1, iy1).0,
            candidate_xy(g, w, h, ix1, iy1).1,
        ));
        if cands[i1] == cands[i2] {
            assert(candidate_xy(g, w, h, ix1, iy1).0 == candidate_xy(g, w, h, ix2, iy2).0);
            assert(candidate_xy(g, w, h, ix1, iy1).1 == candidate_xy(g, w, h, ix2, iy2).1);
        }
    }
    lemma_filter_extent_distinct(cands, w, h);
}

/// One measured calibration point: the flux-weighted measured position, the
/// total flux in the window, and the associated nominal position (rewritten
/// by the pipeline's consensus correction).
#[derive(Clone, Copy, Debug, PartialEq, Eq, Structural)]
pub struct Centroid {
    /// flux-weighted measured position
    pub cog: Vec2D,
    /// total summed intensity in the window
    pub flux: Fx,
    /// associated nominal/reference position
    pub pos: Vec2D,
}

impl Centroid {
    /// Measured centroid x coordinate.
    pub fn cogx(&self) -> (r: Fx)
        ensures
            r == self.cog.x,
    {
        self.cog.x
    }

    /// Measured centroid y coordinate.
    pub fn cogy(&self) -> (r: Fx)
        ensures
            r == self.cog.y,
    {
        self.cog.y
    }

    /// Nominal centroid x coordinate.
    pub fn posx(&self) -> (r: Fx)
        ensures
            r == self.pos.x,
    {
        self.pos.x
    }

    /// Nominal centroid y coordinate.
    pub fn posy(&self) -> (r: Fx)
        ensures
            r == self.pos.y,
    {
        self.pos.y
    }

    /// Flux of the centroid, summed over all valid pixels in the window.
    pub fn flux(&self) -> (r: Fx)
        ensures
            r == self.flux,
    {
        self.flux
    }
}

/// One candidate lattice point, carried through scale, shear, rotation,
/// offset, and recentring; the executable mirror of [`candidate_xy`].
fn candidate_point(
    pitch: Fx,
    c: Fx,
    s: Fx,
    offset: Vec2D,
    rad: usize,
    ix: usize,
    iy: usize,
    width: usize,
    height: usize,
    g: Ghost<Grid>,
) -> (r: Vec2D)
    requires
        grid_in_range(g@),
        pitch@ == pitch_v(g@),
        c@ == fx_cos_v(rot_v(g@)),
        s@ == fx_sin_v(rot_v(g@)),
        offset == offset_v(g@),
        width <= DIM_LIM,
        height <= DIM_LIM,
        rad == grid_radius(width as int, height as int),
        ix < 2 * rad,
        iy < 2 * rad,
    ensures
        r == vec2_v(
            candidate_xy(g@, width as int, height as int, ix as int, iy as int).0,
            candidate_xy(g@, width as int, height as int, ix as int, iy as int).1,
        ),
{
    let ghost w = width as int;
    let ghost h = height as int;
    proof {
        lemma_candidate_bounds(g@, w, h, ix as int, iy as int);
        lemma_trig_bounds(rot_v(g@));
    }
    let xs: i128 = ((ix as i128) - (rad as i128)) * pitch.m;
    let ys: i128 = ((iy as i128) - (rad as i128)) * pitch.m;
    proof {
        assert(xs == lat_v(g@, w, h, ix as int));
        assert(ys == lat_v(g@, w, h, iy as int));
    }
    let xh: i128 = xs + crate::fx::idiv(ys, 2);
    let yh: i128 = crate::fx::idiv(ys * SQRT3_HALF, FX_SCALE);
    let xr: i128 = crate::fx::idiv(xh * c.m, FX_SCALE) - crate::fx::idiv(yh * s.m, FX_SCALE);
    let yr: i128 = crate::fx::idiv(xh * s.m, FX_SCALE) + crate::fx::idiv(yh * c.m, FX_SCALE);
    let wc: i128 = ((width / 2) as i128) * FX_SCALE - FX_SCALE / 2;
    let hc: i128 = ((height / 2) as i128) * FX_SCALE - FX_SCALE / 2;
    Vec2D { x: Fx { m: xr + offset.x.m + wc }, y: Fx { m: yr + offset.y.m + hc } }
}

} // verus!
