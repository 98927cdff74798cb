//! Pixel data and the flux-weighted centroider.
//!
//! An [`Image`] holds a flat row-major pixel buffer, its shape, and the
//! per-exposure spatial shift read from the exposure's metadata. The
//! centroider collects every pixel whose centre lies within a search radius
//! of a query point (squared-distance comparison on the integer pixel-offset
//! window) and computes the total flux and the flux-weighted centre.
use vstd::prelude::*;

use crate::errors::MavDACError;
use crate::fx::abs_v;
use crate::fx::fx_div_v;
use crate::fx::fx_mul_v;
use crate::fx::idiv;
use crate::fx::lemma_mul_mag;
use crate::fx::lemma_tdiv_mag;
use crate::fx::tdiv;
use crate::fx::Fx;
use crate::fx::FX_SCALE;
use crate::geom::grid_in_range;
use crate::geom::in_extent;
use crate::geom::pitch_v;
use crate::geom::spec_all_points;
use crate::geom::translate_pt;
use crate::geom::vec2_v;
use crate::geom::Centroid;
use crate::geom::Grid;
use crate::geom::Vec2D;
use crate::geom::DIM_LIM;
use crate::geom::GRID_PAR_LIM;
use crate::trig::fx_cos_v;
use crate::trig::fx_sin_v;

verus! {

/// Largest pixel-value mantissa magnitude the centroider accepts.
pub const PIX_LIM: i128 = 0x1000_0000_0000_0000; // 2^60

/// Largest query-point mantissa magnitude the centroider accepts (a few
/// thousand image widths; nominal points shifted by an exposure offset stay
/// far below it).
pub const POINT_LIM: i128 = 0x400_0000_0000; // 2^42

/// Total flux magnitude never exceeds this bound: window count times
/// `PIX_LIM` (2^33 * 2^60).
pub const FLUX_LIM: i128 = 0x2000_0000_0000_0000_0000_0000; // 2^93

/// Weighted-coordinate sums never exceed this bound (2^108).
pub const SUM_LIM: i128 = 0x1000_0000_0000_0000_0000_0000_0000;

/// One pixel of a centroiding window: its integer coordinates and its value.
#[derive(Clone, Copy, Debug, PartialEq, Eq, Structural)]
pub struct Pixel {
    pub x: usize,
    pub y: usize,
    pub val: Fx,
}

/// An image with the metadata the calibration uses: a flat row-major pixel
/// buffer, the shape `[height, width]`, and the exposure's known spatial
/// shift.
#[derive(Clone, Debug)]
pub struct Image {
    pub data: Vec<Fx>,
    pub shift: Vec2D,
    pub shape: [usize; 2],
}

impl Image {
    /// The buffer length matches the shape, the dimensions and the shift are
    /// within machine range.
    pub open spec fn wf(self) -> bool {
        &&& self.shape@[0] <= DIM_LIM
        &&& self.shape@[1] <= DIM_LIM
        &&& self.data@.len() == self.shape@[0] * self.shape@[1]
        &&& abs_v(self.shift.x@) <= GRID_PAR_LIM
        &&& abs_v(self.shift.y@) <= GRID_PAR_LIM
    }

    /// Every pixel value is within the centroider's accepted range.
    pub open spec fn bounded(self) -> bool {
        forall|i: int| 0 <= i < self.data@.len() ==> abs_v(self.data@[i]@) <= PIX_LIM
    }

    /// Whether a pixel buffer, shift and shape describe a valid image: the
    /// dimensions are in range, the buffer length matches the shape, and the
    /// shift and every pixel value are within the accepted ranges.
    pub open spec fn parts_ok(data: Seq<Fx>, shift: Vec2D, shape: Seq<usize>) -> bool {
        &&& shape[0] <= DIM_LIM
        &&& shape[1] <= DIM_LIM
        &&& data.len() == shape[0] * shape[1]
        &&& abs_v(shift.x@) <= GRID_PAR_LIM
        &&& abs_v(shift.y@) <= GRID_PAR_LIM
        &&& forall|i: int| 0 <= i < data.len() ==> abs_v((#[trigger] data[i])@) <= PIX_LIM
    }

    /// Assemble an image from a pixel buffer, a shift, and a shape. Fails
    /// exactly when the parts do not describe a valid in-range image.
    pub fn new(data: Vec<Fx>, shift: Vec2D, shape: [usize; 2]) -> (r: Result<
        Image,
        MavDACError,
    >)
        ensures
            match r {
                Ok(img) => Image::parts_ok(data@, shift, shape@) && img.wf() && img.bounded()
                    && img.data == data && img.shift == shift && img.shape@ == shape@,
                Err(e) => e == MavDACError::InvalidFITS && !Image::parts_ok(
                    data@,
                    shift,
                    shape@,
                ),
            },
    {
        let h = shape[0];
        let w = shape[1];
        if h > DIM_LIM || w > DIM_LIM {
            return Err(MavDACError::InvalidFITS);
        }
        proof {
            assert(h * w <= 0x4000_0000) by (nonlinear_arith)
                requires
                    h <= DIM_LIM,
                    w <= DIM_LIM,
            ;
        }
        if data.len() != h * w {
            return Err(MavDACError::InvalidFITS);
        }
        if !(shift.x.m >= -GRID_PAR_LIM && shift.x.m <= GRID_PAR_LIM && shift.y.m >= -GRID_PAR_LIM
            && shift.y.m <= GRID_PAR_LIM) {
            return Err(MavDACError::InvalidFITS);
        }
        let mut i: usize = 0;
        while i < data.len()
            invariant
                i <= data@.len(),
                forall|j: int| 0 <= j < i ==> abs_v(data@[j]@) <= PIX_LIM,
            decreases data@.len() - i,
        {
            let v = data[i];
            if v.m < -PIX_LIM || v.m > PIX_LIM {
                proof {
                    assert(abs_v(data@[i as int]@) > PIX_LIM);
                }
                return Err(MavDACError::InvalidFITS);
            }
            i = i + 1;
        }
        Ok(Image { data, shift, shape })
    }

    /// Get the shape of the image as `(height, width)`.
    pub fn shape(&self) -> (r: (usize, usize))
        ensures
            r.0 == self.shape@[0],
            r.1 == self.shape@[1],
    {
        (self.shape[0], self.shape[1])
    }
}

/// The horizontal window offset of flat window index `i` (row-major over the
/// `(2 rad + 1)`-sided square, horizontal outer).
pub open spec fn blob_dx(rad: int, i: int) -> int {
    i / (2 * rad + 1) - rad
}

/// The vertical window offset of flat window index `i`.
pub open spec fn blob_dy(rad: int, i: int) -> int {
    i % (2 * rad + 1) - rad
}

/// Number of window indices scanned for a radius.
pub open spec fn blob_total(rad: int) -> int {
    (2 * rad + 1) * (2 * rad + 1)
}

/// Whether window index `i` selects a pixel: its centre lies within the
/// radius (squared-distance comparison) and inside the image.
pub open spec fn blob_sel(img: Image, xc: int, yc: int, rad: int, i: int) -> bool {
    let dx = blob_dx(rad, i);
    let dy = blob_dy(rad, i);
    &&& dx * dx + dy * dy <= rad * rad
    &&& 0 <= xc + dx < img.shape@[1]
    &&& 0 <= yc + dy < img.shape@[0]
}

/// The pixel selected by window index `i`.
pub open spec fn blob_pix(img: Image, xc: int, yc: int, rad: int, i: int) -> Pixel {
    let dx = blob_dx(rad, i);
    let dy = blob_dy(rad, i);
    Pixel {
        x: (xc + dx) as usize,
        y: (yc + dy) as usize,
        val: img.data@[(yc + dy) * img.shape@[1] + (xc + dx)],
    }
}

/// The selected pixels of the first `n` window indices, in scan order.
pub open spec fn spec_blob(img: Image, xc: int, yc: int, rad: int, n: nat) -> Seq<Pixel>
    decreases n,
{
    if n == 0 {
        Seq::empty()
    } else {
        let rest = spec_blob(img, xc, yc, rad, (n - 1) as nat);
        if blob_sel(img, xc, yc, rad, n - 1) {
            rest.push(blob_pix(img, xc, yc, rad, n - 1))
        } else {
            rest
        }
    }
}

/// The whole circular neighbourhood of a query point: the query coordinates
/// are truncated to pixel indices and the full window is scanned.
pub open spec fn spec_blob_full(img: Image, point: Vec2D, rad: int) -> Seq<Pixel> {
    spec_blob(
        img,
        tdiv(point.x@, FX_SCALE as int),
        tdiv(point.y@, FX_SCALE as int),
        rad,
        blob_total(rad) as nat,
    )
}

/// Total flux of a pixel sequence: the exact sum of the values.
pub open spec fn flux_of(s: Seq<Pixel>) -> int
    decreases s.len(),
{
    if s.len() == 0 {
        0
    } else {
        flux_of(s.drop_last()) + s.last().val@
    }
}

/// Flux-weighted horizontal coordinate sum of a pixel sequence.
pub open spec fn sumx_of(s: Seq<Pixel>) -> int
    decreases s.len(),
{
    if s.len() == 0 {
        0
    } else {
        sumx_of(s.drop_last()) + fx_mul_v(s.last().x * FX_SCALE, s.last().val@)
    }
}

/// Flux-weighted vertical coordinate sum of a pixel sequence.
pub open spec fn sumy_of(s: Seq<Pixel>) -> int
    decreases s.len(),
{
    if s.len() == 0 {
        0
    } else {
        sumy_of(s.drop_last()) + fx_mul_v(s.last().y * FX_SCALE, s.last().val@)
    }
}

/// The centroid of a query point: flux and flux-weighted centre of its
/// window (meaningful when the flux is nonzero), with `pos` initialized to
/// the query point.
pub open spec fn spec_cog(img: Image, point: Vec2D, rad: int) -> Centroid {
    let b = spec_blob_full(img, point, rad);
    Centroid {
        cog: vec2_v(fx_div_v(sumx_of(b), flux_of(b)), fx_div_v(sumy_of(b), flux_of(b))),
        flux: Fx { m: flux_of(b) as i128 },
        pos: point,
    }
}

/// Every selected pixel of a well-formed bounded image is inside the image
/// and carries an in-range value, and at most `n` pixels are selected.
proof fn lemma_blob_elems(img: Image, xc: int, yc: int, rad: int, n: nat)
    requires
        img.wf(),
        img.bounded(),
    ensures
        spec_blob(img, xc, yc, rad, n).len() <= n,
        forall|k: int|
            0 <= k < spec_blob(img, xc, yc, rad, n).len() ==> {
                let p = #[trigger] spec_blob(img, xc, yc, rad, n)[k];
                p.x < img.shape@[1] && p.y < img.shape@[0] && abs_v(p.val@) <= PIX_LIM
            },
    decreases n,
{
    if n > 0 {
        lemma_blob_elems(img, xc, yc, rad, (n - 1) as nat);
        if blob_sel(img, xc, yc, rad, n - 1) {
            let dx = blob_dx(rad, n - 1);
            let dy = blob_dy(rad, n - 1);
            lemma_rowmajor(xc + dx, yc + dy, img.shape@[1] as int, img.shape@[0] as int);
        }
    }
}

/// Row-major indexing stays inside the buffer.
proof fn lemma_rowmajor(px: int, py: int, w: int, h: int)
    requires
        0 <= px < w,
        0 <= py < h,
    ensures
        0 <= py * w + px < h * w,
{
    assert(0 <= py * w + px < h * w) by (nonlinear_arith)
        requires
            0 <= px < w,
            0 <= py < h,
    ;
}

/// Number of samples drawn along each circle.
pub const NTHETA: usize = 1000;

/// The pixel hit by sample `ti` of the circle of radius `rad` around `p`:
/// the point at angle `ti / NTHETA` of a full turn, truncated to pixel
/// coordinates.
pub open spec fn circle_pixel(p: Vec2D, rad: int, ti: int) -> (int, int) {
    let theta = tdiv(ti * (2 * crate::trig::FX_PI), NTHETA as int);
    let hx = p.x@ + fx_mul_v(fx_cos_v(theta), rad);
    let hy = p.y@ + fx_mul_v(fx_sin_v(theta), rad);
    (tdiv(hx, FX_SCALE as int), tdiv(hy, FX_SCALE as int))
}

/// The in-extent circle pixels of the first `n` flat samples (point index
/// outer, angle index inner), in drawing order.
pub open spec fn hit_list(
    pts: Seq<Vec2D>,
    shift: Vec2D,
    w: int,
    h: int,
    rad: int,
    n: nat,
) -> Seq<(int, int)>
    decreases n,
{
    if n == 0 {
        Seq::empty()
    } else {
        let rest = hit_list(pts, shift, w, h, rad, (n - 1) as nat);
        let pi = (n - 1) as int / (NTHETA as int);
        let ti = (n - 1) as int % (NTHETA as int);
        let hit = circle_pixel(translate_pt(pts[pi], shift), rad, ti);
        if 0 <= hit.0 < w && 0 <= hit.1 < h {
            rest.push(hit)
        } else {
            rest
        }
    }
}

/// The pixel buffer after adding `val` at each hit, in order (a pixel hit
/// several times accumulates).
pub open spec fn apply_hits(data: Seq<Fx>, w: int, hits: Seq<(int, int)>, val: int) -> Seq<Fx>
    decreases hits.len(),
{
    if hits.len() == 0 {
        data
    } else {
        let prev = apply_hits(data, w, hits.drop_last(), val);
        let idx = hits.last().1 * w + hits.last().0;
        prev.update(idx, Fx { m: (prev[idx]@ + val) as i128 })
    }
}

/// The extent filter never lengthens a sequence.
proof fn lemma_filter_extent_len(s: Seq<Vec2D>, w: int, h: int)
    ensures
        crate::geom::filter_extent(s, w, h).len() <= s.len(),
    decreases s.len(),
{
    if s.len() > 0 {
        lemma_filter_extent_len(s.drop_last(), w, h);
    }
}

/// Row-major pixel indices are injective over valid coordinates.
proof fn lemma_rowmajor_inj(x1: int, y1: int, x2: int, y2: int, w: int)
    requires
        0 <= x1 < w,
        0 <= x2 < w,
        y1 * w + x1 == y2 * w + x2,
    ensures
        x1 == x2,
        y1 == y2,
{
    assert(x1 == x2 && y1 == y2) by (nonlinear_arith)
        requires
            0 <= x1 < w,
            0 <= x2 < w,
            y1 * w + x1 == y2 * w + x2,
    ;
}

/// Law (flux additivity): when an image is the pixelwise sum of two images
/// of the same shape — in particular when the window splits into two
/// disjoint supports, one per image — the flux of any centroiding window is
/// the exact sum of the two windows' fluxes.
pub proof fn lemma_flux_additive(
    first: Image,
    second: Image,
    total: Image,
    point: Vec2D,
    rad: int,
)
    requires
        first.shape@ == total.shape@,
        second.shape@ == total.shape@,
        total.data@.len() == total.shape@[0] * total.shape@[1],
        first.data@.len() == total.data@.len(),
        second.data@.len() == total.data@.len(),
        forall|i: int|
            0 <= i < total.data@.len() ==> (#[trigger] total.data@[i])@ == first.data@[i]@
                + second.data@[i]@,
    ensures
        flux_of(spec_blob_full(total, point, rad)) == flux_of(spec_blob_full(first, point, rad))
            + flux_of(spec_blob_full(second, point, rad)),
{
    lemma_flux_additive_prefix(
        first,
        second,
        total,
        tdiv(point.x@, FX_SCALE as int),
        tdiv(point.y@, FX_SCALE as int),
        rad,
        blob_total(rad) as nat,
    );
}

proof fn lemma_flux_additive_prefix(
    first: Image,
    second: Image,
    total: Image,
    xc: int,
    yc: int,
    rad: int,
    n: nat,
)
    requires
        first.shape@ == total.shape@,
        second.shape@ == total.shape@,
        total.data@.len() == total.shape@[0] * total.shape@[1],
        first.data@.len() == total.data@.len(),
        second.data@.len() == total.data@.len(),
        forall|i: int|
            0 <= i < total.data@.len() ==> (#[trigger] total.data@[i])@ == first.data@[i]@
                + second.data@[i]@,
    ensures
        flux_of(spec_blob(total, xc, yc, rad, n)) == flux_of(spec_blob(first, xc, yc, rad, n))
            + flux_of(spec_blob(second, xc, yc, rad, n)),
    decreases n,
{
    if n > 0 {
        lemma_flux_additive_prefix(first, second, total, xc, yc, rad, (n - 1) as nat);
        let i = n - 1;
        if blob_sel(total, xc, yc, rad, i) {
            let dx = blob_dx(rad, i);
            let dy = blob_dy(rad, i);
            lemma_rowmajor(xc + dx, yc + dy, total.shape@[1] as int, total.shape@[0] as int);
            let bt = spec_blob(total, xc, yc, rad, (n - 1) as nat);
            let ba = spec_blob(first, xc, yc, rad, (n - 1) as nat);
            let bb = spec_blob(second, xc, yc, rad, (n - 1) as nat);
            assert(bt.push(blob_pix(total, xc, yc, rad, i)).drop_last() =~= bt);
            assert(ba.push(blob_pix(first, xc, yc, rad, i)).drop_last() =~= ba);
            assert(bb.push(blob_pix(second, xc, yc, rad, i)).drop_last() =~= bb);
        }
    }
}

/// Removing one pixel removes exactly its value from the flux sum.
proof fn lemma_flux_of_remove(s: Seq<Pixel>, i: int)
    requires
        0 <= i < s.len(),
    ensures
        flux_of(s.remove(i)) == flux_of(s) - s[i].val@,
    decreases s.len(),
{
    if i == s.len() - 1 {
        assert(s.remove(i) =~= s.drop_last());
    } else {
        assert(s.remove(i).drop_last() =~= s.drop_last().remove(i));
        assert(s.remove(i).last() == s.last());
        lemma_flux_of_remove(s.drop_last(), i);
    }
}

/// The flux sum splits along any multiset partition of the pixels.
proof fn lemma_flux_multiset_split(s: Seq<Pixel>, a: Seq<Pixel>, b: Seq<Pixel>)
    requires
        s.to_multiset() == a.to_multiset().add(b.to_multiset()),
    ensures
        flux_of(s) == flux_of(a) + flux_of(b),
    decreases s.len(),
{
    broadcast use vstd::seq_lib::group_to_multiset_ensures;
    broadcast use vstd::multiset::group_multiset_axioms;

    if s.len() == 0 {
        assert(s.to_multiset().len() == s.len());
        assert(a.to_multiset().len() == a.len());
        assert(b.to_multiset().len() == b.len());
        assert(s.to_multiset().len() == a.to_multiset().len() + b.to_multiset().len());
        assert(a.len() == 0 && b.len() == 0);
    } else {
        let e = s.last();
        assert(s.contains(e)) by {
            assert(s[s.len() - 1] == e);
        }
        assert(s.to_multiset().count(e) > 0);
        let sp = s.drop_last();
        assert(s.remove(s.len() - 1) =~= sp);
        assert(sp.to_multiset() =~= s.to_multiset().remove(e));
        if a.to_multiset().count(e) > 0 {
            assert(a.contains(e));
            let i = choose|i: int| 0 <= i < a.len() && a[i] == e;
            let ap = a.remove(i);
            assert(ap.to_multiset() =~= a.to_multiset().remove(e));
            assert(sp.to_multiset() =~= ap.to_multiset().add(b.to_multiset()));
            lemma_flux_multiset_split(sp, ap, b);
            lemma_flux_of_remove(a, i);
        } else {
            assert(b.to_multiset().count(e) > 0);
            assert(b.contains(e));
            let i = choose|i: int| 0 <= i < b.len() && b[i] == e;
            let bp = b.remove(i);
            assert(bp.to_multiset() =~= b.to_multiset().remove(e));
            assert(sp.to_multiset() =~= a.to_multiset().add(bp.to_multiset()));
            lemma_flux_multiset_split(sp, a, bp);
            lemma_flux_of_remove(b, i);
        }
    }
}

/// Law (flux additivity over a window partition): when a window's pixels are
/// exactly the pixels of two sub-windows together — a disjoint union, each
/// pixel counted once — the window's flux is the exact sum of the
/// sub-windows' fluxes.
pub proof fn lemma_flux_additive_partition(
    img: Image,
    point: Vec2D,
    rad: int,
    p1: Vec2D,
    rad1: int,
    p2: Vec2D,
    rad2: int,
)
    requires
        spec_blob_full(img, point, rad).to_multiset() == spec_blob_full(
            img,
            p1,
            rad1,
        ).to_multiset().add(spec_blob_full(img, p2, rad2).to_multiset()),
    ensures
        flux_of(spec_blob_full(img, point, rad)) == flux_of(spec_blob_full(img, p1, rad1))
            + flux_of(spec_blob_full(img, p2, rad2)),
{
    lemma_flux_multiset_split(
        spec_blob_full(img, point, rad),
        spec_blob_full(img, p1, rad1),
        spec_blob_full(img, p2, rad2),
    );
}

/// Law (centroid exactness on synthetic data): for a pixel buffer holding a
/// single unit-intensity point source at integer position `(px, py)` and
/// zero everywhere else, centroiding at `(px, py)` with any radius returns
/// exactly that position as the centre and exactly one unit of flux.
pub proof fn lemma_centroid_exact(img: Image, px: int, py: int, rad: int)
    requires
        img.wf(),
        0 <= px < img.shape@[1],
        0 <= py < img.shape@[0],
        img.data@[py * img.shape@[1] + px]@ == FX_SCALE,
        forall|i: int|
            0 <= i < img.data@.len() && i != py * img.shape@[1] + px ==> (
            #[trigger] img.data@[i])@ == 0,
        0 <= rad <= DIM_LIM,
    ensures
        spec_cog(img, vec2_v(px * FX_SCALE, py * FX_SCALE), rad) == (Centroid {
            cog: vec2_v(px * FX_SCALE, py * FX_SCALE),
            flux: Fx { m: FX_SCALE },
            pos: vec2_v(px * FX_SCALE, py * FX_SCALE),
        }),
{
    let point = vec2_v(px * FX_SCALE, py * FX_SCALE);
    crate::fx::lemma_tdiv_exact(px, FX_SCALE as int);
    crate::fx::lemma_tdiv_exact(py, FX_SCALE as int);
    assert(tdiv(point.x@, FX_SCALE as int) == px);
    assert(tdiv(point.y@, FX_SCALE as int) == py);
    let side = 2 * rad + 1;
    let i0 = rad * side + rad;
    assert(0 <= i0 < blob_total(rad)) by (nonlinear_arith)
        requires
            0 <= rad,
            side == 2 * rad + 1,
            i0 == rad * side + rad,
    ;
    lemma_point_source_prefix(img, px, py, rad, blob_total(rad) as nat);
    let b = spec_blob_full(img, point, rad);
    assert(flux_of(b) == FX_SCALE);
    crate::fx::lemma_tdiv_exact(px * FX_SCALE, FX_SCALE as int);
    crate::fx::lemma_tdiv_exact(py * FX_SCALE, FX_SCALE as int);
    assert(fx_div_v(px * FX_SCALE, FX_SCALE as int) == px * FX_SCALE);
    assert(fx_div_v(py * FX_SCALE, FX_SCALE as int) == py * FX_SCALE);
}

/// Running sums of the point-source window: zero until the scan passes the
/// centre pixel, then exactly one unit of flux centred on the source.
proof fn lemma_point_source_prefix(img: Image, px: int, py: int, rad: int, n: nat)
    requires
        img.wf(),
        0 <= px < img.shape@[1],
        0 <= py < img.shape@[0],
        img.data@[py * img.shape@[1] + px]@ == FX_SCALE,
        forall|i: int|
            0 <= i < img.data@.len() && i != py * img.shape@[1] + px ==> (
            #[trigger] img.data@[i])@ == 0,
        0 <= rad <= DIM_LIM,
        n <= blob_total(rad),
    ensures
        flux_of(spec_blob(img, px, py, rad, n)) == if n > rad * (2 * rad + 1) + rad {
            FX_SCALE as int
        } else {
            0
        },
        sumx_of(spec_blob(img, px, py, rad, n)) == if n > rad * (2 * rad + 1) + rad {
            px * FX_SCALE
        } else {
            0
        },
        sumy_of(spec_blob(img, px, py, rad, n)) == if n > rad * (2 * rad + 1) + rad {
            py * FX_SCALE
        } else {
            0
        },
    decreases n,
{
    let side = 2 * rad + 1;
    let i0 = rad * side + rad;
    let w = img.shape@[1] as int;
    let h = img.shape@[0] as int;
    if n > 0 {
        lemma_point_source_prefix(img, px, py, rad, (n - 1) as nat);
        let i = n - 1;
        let dx = blob_dx(rad, i);
        let dy = blob_dy(rad, i);
        vstd::arithmetic::div_mod::lemma_fundamental_div_mod(i, side);
        vstd::arithmetic::div_mod::lemma_mod_bound(i, side);
        if i == i0 {
            vstd::arithmetic::div_mod::lemma_fundamental_div_mod_converse(i0, side, rad, rad);
            assert(dx == 0 && dy == 0);
            assert(blob_sel(img, px, py, rad, i)) by {
                assert(dx * dx + dy * dy <= rad * rad) by (nonlinear_arith)
                    requires
                        dx == 0,
                        dy == 0,
                        rad >= 0,
                ;
            }
            let pix = blob_pix(img, px, py, rad, i);
            assert(pix.val@ == FX_SCALE);
            let rest = spec_blob(img, px, py, rad, (n - 1) as nat);
            assert(rest.push(pix).drop_last() =~= rest);
            crate::fx::lemma_tdiv_exact(px * FX_SCALE, FX_SCALE as int);
            crate::fx::lemma_tdiv_exact(py * FX_SCALE, FX_SCALE as int);
            assert(fx_mul_v(pix.x * FX_SCALE, pix.val@) == px * FX_SCALE);
            assert(fx_mul_v(pix.y * FX_SCALE, pix.val@) == py * FX_SCALE);
        } else {
            if blob_sel(img, px, py, rad, i) {
                let pix = blob_pix(img, px, py, rad, i);
                lemma_rowmajor(px + dx, py + dy, w, h);
                assert(!(dx == 0 && dy == 0)) by {
                    if dx == 0 && dy == 0 {
                        assert(side * rad == rad * side) by (nonlinear_arith);
                    }
                }
                assert((py + dy) * w + (px + dx) != py * w + px) by {
                    if (py + dy) * w + (px + dx) == py * w + px {
                        lemma_rowmajor_inj(px + dx, py + dy, px, py, w);
                    }
                }
                assert(pix.val@ == 0);
                let rest = spec_blob(img, px, py, rad, (n - 1) as nat);
                assert(rest.push(pix).drop_last() =~= rest);
                assert(fx_mul_v(pix.x * FX_SCALE, 0) == 0) by {
                    crate::fx::lemma_tdiv_exact(0, FX_SCALE as int);
                    assert(pix.x * FX_SCALE * 0 == 0) by (nonlinear_arith);
                }
                assert(fx_mul_v(pix.y * FX_SCALE, 0) == 0) by {
                    crate::fx::lemma_tdiv_exact(0, FX_SCALE as int);
                    assert(pix.y * FX_SCALE * 0 == 0) by (nonlinear_arith);
                }
            }
        }
    }
}

impl Image {
    /// Collect the circular pixel neighbourhood of a point: every pixel
    /// whose integer offset from the truncated query point lies within the
    /// radius and inside the image, in scan order.
    pub fn get_blob(&self, pos: &Vec2D, rad: usize) -> (r: Vec<Pixel>)
        requires
            self.wf(),
            rad <= DIM_LIM,
            abs_v(pos.x@) <= POINT_LIM,
            abs_v(pos.y@) <= POINT_LIM,
        ensures
            r@ == spec_blob_full(*self, *pos, rad as int),
    {
        let xc: i128 = idiv(pos.x.m, FX_SCALE);
        let yc: i128 = idiv(pos.y.m, FX_SCALE);
        let side: usize = 2 * rad + 1;
        let w = self.shape[1];
        let h = self.shape[0];
        let radi: i128 = rad as i128;
        let mut pixels: Vec<Pixel> = Vec::new();
        let mut ux: usize = 0;
        while ux < side
            invariant
                self.wf(),
                w == self.shape@[1],
                h == self.shape@[0],
                side == 2 * rad + 1,
                radi == rad as int,
                rad <= DIM_LIM,
                xc == tdiv(pos.x@, FX_SCALE as int),
                yc == tdiv(pos.y@, FX_SCALE as int),
                abs_v(xc as int) <= POINT_LIM,
                abs_v(yc as int) <= POINT_LIM,
                ux <= side,
                pixels@ == spec_blob(*self, xc as int, yc as int, rad as int, (ux * side) as nat),
            decreases side - ux,
        {
            let mut uy: usize = 0;
            while uy < side
                invariant
                    self.wf(),
                    w == self.shape@[1],
                    h == self.shape@[0],
                    side == 2 * rad + 1,
                    radi == rad as int,
                    rad <= DIM_LIM,
                    xc == tdiv(pos.x@, FX_SCALE as int),
                    yc == tdiv(pos.y@, FX_SCALE as int),
                    abs_v(xc as int) <= POINT_LIM,
                    abs_v(yc as int) <= POINT_LIM,
                    ux < side,
                    uy <= side,
                    pixels@ == spec_blob(
                        *self,
                        xc as int,
                        yc as int,
                        rad as int,
                        (ux * side + uy) as nat,
                    ),
                decreases side - uy,
            {
                let ghost n = (ux * side + uy) as int;
                proof {
                    vstd::arithmetic::div_mod::lemma_fundamental_div_mod_converse(
                        n,
                        side as int,
                        ux as int,
                        uy as int,
                    );
                }
                let dx: i128 = (ux as i128) - radi;
                let dy: i128 = (uy as i128) - radi;
                proof {
                    assert(dx * dx <= 0x4000_0000_0000 && dy * dy <= 0x4000_0000_0000 && radi
                        * radi <= 0x4000_0000_0000 && dx * dx >= 0 && dy * dy >= 0) by (nonlinear_arith)
                        requires
                            -0x80_0000 <= dx <= 0x80_0000,
                            -0x80_0000 <= dy <= 0x80_0000,
                            0 <= radi <= 0x80_0000,
                    ;
                }
                if dx * dx + dy * dy <= radi * radi {
                    let px = xc + dx;
                    let py = yc + dy;
                    if px >= 0 && px < w as i128 && py >= 0 && py < h as i128 {
                        let pxu = px as usize;
                        let pyu = py as usize;
                        proof {
                            lemma_rowmajor(px as int, py as int, w as int, h as int);
                            assert(pyu * w + pxu < 0x4000_0000) by (nonlinear_arith)
                                requires
                                    pyu < h <= 32768,
                                    pxu < w <= 32768,
                            ;
                        }
                        pixels.push(
                            Pixel { x: pxu, y: pyu, val: self.data[pyu * w + pxu] },
                        );
                    }
                }
                uy = uy + 1;
            }
            ux = ux + 1;
            proof {
                assert((ux - 1) * side + side == ux * side) by (nonlinear_arith);
            }
        }
        proof {
            assert(ux * side == blob_total(rad as int)) by (nonlinear_arith)
                requires
                    ux == side,
                    side == 2 * rad + 1,
            ;
        }
        pixels
    }

    /// Total flux and flux-weighted coordinate sums of a point's window:
    /// `(sum of x * value, sum of y * value, sum of value)`.
    pub(crate) fn cog_sums(&self, pos: &Vec2D, rad: usize) -> (r: (Fx, Fx, Fx))
        requires
            self.wf(),
            self.bounded(),
            rad <= DIM_LIM,
            abs_v(pos.x@) <= POINT_LIM,
            abs_v(pos.y@) <= POINT_LIM,
        ensures
            r.0@ == sumx_of(spec_blob_full(*self, *pos, rad as int)),
            r.1@ == sumy_of(spec_blob_full(*self, *pos, rad as int)),
            r.2@ == flux_of(spec_blob_full(*self, *pos, rad as int)),
            abs_v(r.0@) <= SUM_LIM,
            abs_v(r.1@) <= SUM_LIM,
            abs_v(r.2@) <= FLUX_LIM,
    {
        let pixels = self.get_blob(pos, rad);
        let ghost blob = spec_blob_full(*self, *pos, rad as int);
        proof {
            lemma_blob_elems(
                *self,
                tdiv(pos.x@, FX_SCALE as int),
                tdiv(pos.y@, FX_SCALE as int),
                rad as int,
                blob_total(rad as int) as nat,
            );
            assert(blob.len() <= blob_total(rad as int));
            assert(blob_total(rad as int) <= 0x2_0000_0000) by (nonlinear_arith)
                requires
                    0 <= rad <= DIM_LIM,
            ;
        }
        let mut sumx: i128 = 0;
        let mut sumy: i128 = 0;
        let mut flux: i128 = 0;
        let mut k: usize = 0;
        while k < pixels.len()
            invariant
                pixels@ == blob,
                blob.len() <= 0x2_0000_0000,
                forall|j: int|
                    0 <= j < blob.len() ==> {
                        let p = #[trigger] blob[j];
                        p.x <= DIM_LIM && p.y <= DIM_LIM && abs_v(p.val@) <= PIX_LIM
                    },
                k <= blob.len(),
                sumx == sumx_of(blob.take(k as int)),
                sumy == sumy_of(blob.take(k as int)),
                flux == flux_of(blob.take(k as int)),
                abs_v(sumx as int) <= k * 0x800_0000_0000_0000_0000,
                abs_v(sumy as int) <= k * 0x800_0000_0000_0000_0000,
                abs_v(flux as int) <= k * PIX_LIM,
            decreases pixels@.len() - k,
        {
            let p = pixels[k];
            let px = Fx::from_int(p.x as i64);
            let py = Fx::from_int(p.y as i64);
            proof {
                lemma_mul_mag(px@, p.val@, 0x8000_0000, PIX_LIM as int);
                lemma_mul_mag(py@, p.val@, 0x8000_0000, PIX_LIM as int);
                lemma_tdiv_mag(px@ * p.val@, FX_SCALE as int, 0x8000_0000 * PIX_LIM);
                lemma_tdiv_mag(py@ * p.val@, FX_SCALE as int, 0x8000_0000 * PIX_LIM);
                assert(blob.take(k + 1).drop_last() =~= blob.take(k as int));
                assert(blob.take(k + 1).last() == blob[k as int]);
            }
            let tx = px.mul(p.val);
            let ty = py.mul(p.val);
            sumx = sumx + tx.m;
            sumy = sumy + ty.m;
            flux = flux + p.val.m;
            k = k + 1;
        }
        proof {
            assert(blob.take(blob.len() as int) =~= blob);
            assert(blob.len() * 0x800_0000_0000_0000_0000 <= SUM_LIM && blob.len() * PIX_LIM
                <= FLUX_LIM) by (nonlinear_arith)
                requires
                    0 <= blob.len() <= 0x2_0000_0000,
            ;
        }
        (Fx { m: sumx }, Fx { m: sumy }, Fx { m: flux })
    }

    /// Compute the centroid of the window around a query point: total flux
    /// and flux-weighted centre, with `pos` set to the query point. Fails
    /// exactly when the window's total flux is zero, so an undefined centre
    /// is never returned silently.
    pub fn cog(&self, point: &Vec2D, rad: usize) -> (r: Result<Centroid, MavDACError>)
        requires
            self.wf(),
            self.bounded(),
            rad <= DIM_LIM,
            abs_v(point.x@) <= POINT_LIM,
            abs_v(point.y@) <= POINT_LIM,
        ensures
            match r {
                Ok(c) => flux_of(spec_blob_full(*self, *point, rad as int)) != 0 && c == spec_cog(
                    *self,
                    *point,
                    rad as int,
                ),
                Err(e) => e == MavDACError::Measurement && flux_of(
                    spec_blob_full(*self, *point, rad as int),
                ) == 0,
            },
    {
        let (sumx, sumy, flux) = self.cog_sums(point, rad);
        if flux.m == 0 {
            return Err(MavDACError::Measurement);
        }
        let cx = sumx.div(flux);
        let cy = sumy.div(flux);
        Ok(Centroid { cog: Vec2D { x: cx, y: cy }, flux, pos: *point })
    }

    /// Draw a circle of the given radius around every nominal grid point
    /// (shifted by the exposure's shift), adding `val` to each sampled
    /// pixel: an alignment aid. Samples falling outside the image are
    /// skipped; a pixel crossed several times accumulates. Fails exactly
    /// when the pitch is not positive, leaving the image unchanged.
    #[verifier::rlimit(80)]
    pub fn draw_on_circles(&mut self, grid: &Grid, rad: Fx, val: Fx) -> (r: Result<
        (),
        MavDACError,
    >)
        requires
            old(self).wf(),
            old(self).bounded(),
            grid_in_range(*grid),
            abs_v(rad@) <= GRID_PAR_LIM,
            abs_v(val@) <= GRID_PAR_LIM,
        ensures
            final(self).shape@ == old(self).shape@,
            final(self).shift == old(self).shift,
            final(self).wf(),
            match r {
                Ok(()) => pitch_v(*grid) > 0 && final(self).data@ == apply_hits(
                    old(self).data@,
                    old(self).shape@[1] as int,
                    hit_list(
                        spec_all_points(
                            *grid,
                            old(self).shape@[1] as int,
                            old(self).shape@[0] as int,
                        ),
                        old(self).shift,
                        old(self).shape@[1] as int,
                        old(self).shape@[0] as int,
                        rad@,
                        (spec_all_points(
                            *grid,
                            old(self).shape@[1] as int,
                            old(self).shape@[0] as int,
                        ).len() * NTHETA) as nat,
                    ),
                    val@,
                ),
                Err(e) => e == MavDACError::Geometry && pitch_v(*grid) <= 0 && final(self).data@
                    == old(self).data@,
            },
    {
        let w = self.shape[1];
        let h = self.shape[0];
        let points = match grid.all_points(w, h) {
            Ok(points) => points,
            Err(e) => {
                return Err(e);
            },
        };
        let ghost pts = spec_all_points(*grid, w as int, h as int);
        let ghost data0 = self.data@;
        let ghost shift0 = self.shift;
        proof {
            let tworad = 2 * crate::geom::grid_radius(w as int, h as int);
            crate::geom::lemma_filter_extent_elems(
                crate::geom::cand_prefix(*grid, w as int, h as int, (tworad * tworad) as nat),
                w as int,
                h as int,
            );
            lemma_filter_extent_len(
                crate::geom::cand_prefix(*grid, w as int, h as int, (tworad * tworad) as nat),
                w as int,
                h as int,
            );
            assert(tworad * tworad <= 0x10_0000_0000) by (nonlinear_arith)
                requires
                    0 <= tworad <= 0x4_0000,
            ;
        }
        let npts = points.len();
        let mut pi: usize = 0;
        while pi < npts
            invariant
                self.wf(),
                self.shape@ == old(self).shape@,
                self.shift == shift0,
                shift0 == old(self).shift,
                data0 == old(self).data@,
                data0.len() == self.data@.len(),
                w == self.shape@[1],
                h == self.shape@[0],
                abs_v(rad@) <= GRID_PAR_LIM,
                abs_v(val@) <= GRID_PAR_LIM,
                points@ == pts,
                npts == pts.len(),
                npts <= 0x10_0000_0000,
                forall|t: int| 0 <= t < pts.len() ==> in_extent(#[trigger] pts[t], w as int, h as int),
                abs_v(shift0.x@) <= GRID_PAR_LIM,
                abs_v(shift0.y@) <= GRID_PAR_LIM,
                pi <= npts,
                self.data@ == apply_hits(
                    data0,
                    w as int,
                    hit_list(pts, shift0, w as int, h as int, rad@, (pi * NTHETA) as nat),
                    val@,
                ),
                forall|t: int|
                    0 <= t < self.data@.len() ==> abs_v((#[trigger] self.data@[t])@) <= PIX_LIM + (
                    pi * NTHETA) * GRID_PAR_LIM,
            decreases npts - pi,
        {
            let mut ti: usize = 0;
            while ti < NTHETA
                invariant
                    self.wf(),
                    self.shape@ == old(self).shape@,
                    self.shift == shift0,
                    shift0 == old(self).shift,
                    data0 == old(self).data@,
                    data0.len() == self.data@.len(),
                    w == self.shape@[1],
                    h == self.shape@[0],
                    abs_v(rad@) <= GRID_PAR_LIM,
                    abs_v(val@) <= GRID_PAR_LIM,
                    points@ == pts,
                    npts == pts.len(),
                    npts <= 0x10_0000_0000,
                    forall|t: int|
                        0 <= t < pts.len() ==> in_extent(#[trigger] pts[t], w as int, h as int),
                    abs_v(shift0.x@) <= GRID_PAR_LIM,
                    abs_v(shift0.y@) <= GRID_PAR_LIM,
                    pi < npts,
                    ti <= NTHETA,
                    self.data@ == apply_hits(
                        data0,
                        w as int,
                        hit_list(
                            pts,
                            shift0,
                            w as int,
                            h as int,
                            rad@,
                            (pi * NTHETA + ti) as nat,
                        ),
                        val@,
                    ),
                    forall|t: int|
                        0 <= t < self.data@.len() ==> abs_v((#[trigger] self.data@[t])@) <= PIX_LIM
                            + (pi * NTHETA + ti) * GRID_PAR_LIM,
                decreases NTHETA - ti,
            {
                let ghost n: int = pi * NTHETA + ti;
                proof {
                    vstd::arithmetic::div_mod::lemma_fundamental_div_mod_converse(
                        n,
                        NTHETA as int,
                        pi as int,
                        ti as int,
                    );
                    crate::trig::lemma_trig_bounds(
                        tdiv((ti as int) * (2 * crate::trig::FX_PI), NTHETA as int),
                    );
                    crate::fx::lemma_tdiv_mag(
                        (ti as int) * (2 * crate::trig::FX_PI),
                        NTHETA as int,
                        0x8000_0000,
                    );
                }
                let point = points[pi];
                let theta = Fx {
                    m: idiv((ti as i128) * (2 * crate::trig::FX_PI), NTHETA as i128),
                };
                let cth = crate::trig::fx_cos(theta);
                let sth = crate::trig::fx_sin(theta);
                proof {
                    crate::fx::lemma_mul_mag(cth@, rad@, 2 * FX_SCALE as int, GRID_PAR_LIM as int);
                    crate::fx::lemma_mul_mag(sth@, rad@, 2 * FX_SCALE as int, GRID_PAR_LIM as int);
                    crate::fx::lemma_tdiv_mag(cth@ * rad@, FX_SCALE as int, 2 * (FX_SCALE as int)
                        * (GRID_PAR_LIM as int));
                    crate::fx::lemma_tdiv_mag(sth@ * rad@, FX_SCALE as int, 2 * (FX_SCALE as int)
                        * (GRID_PAR_LIM as int));
                }
                let hx: i128 = point.x.m + self.shift.x.m + idiv(cth.m * rad.m, FX_SCALE);
                let hy: i128 = point.y.m + self.shift.y.m + idiv(sth.m * rad.m, FX_SCALE);
                let pxi: i128 = idiv(hx, FX_SCALE);
                let pyi: i128 = idiv(hy, FX_SCALE);
                proof {
                    assert(translate_pt(pts[pi as int], shift0).x@ == pts[pi as int].x@
                        + shift0.x@);
                    assert((pxi as int, pyi as int) == circle_pixel(
                        translate_pt(pts[pi as int], shift0),
                        rad@,
                        ti as int,
                    ));
                    assert(hit_list(pts, shift0, w as int, h as int, rad@, (n + 1) as nat)
                        == if 0 <= pxi < w && 0 <= pyi < h {
                        hit_list(pts, shift0, w as int, h as int, rad@, n as nat).push(
                            (pxi as int, pyi as int),
                        )
                    } else {
                        hit_list(pts, shift0, w as int, h as int, rad@, n as nat)
                    });
                    assert((pi * NTHETA + (ti + 1)) == n + 1);
                    assert(n * GRID_PAR_LIM + GRID_PAR_LIM == (n + 1) * GRID_PAR_LIM)
                        by (nonlinear_arith);
                    assert(n * GRID_PAR_LIM <= 0x4000_0000_0000_0 * GRID_PAR_LIM)
                        by (nonlinear_arith)
                        requires
                            0 <= n <= 0x4000_0000_0000_0,
                    ;
                }
                if pxi >= 0 && pxi < w as i128 && pyi >= 0 && pyi < h as i128 {
                    let pxu = pxi as usize;
                    let pyu = pyi as usize;
                    proof {
                        lemma_rowmajor(pxi as int, pyi as int, w as int, h as int);
                        assert(pyu * w + pxu < 0x4000_0000) by (nonlinear_arith)
                            requires
                                pyu < h <= 32768,
                                pxu < w <= 32768,
                        ;
                    }
                    let idx = pyu * w + pxu;
                    let cur = self.data[idx];
                    self.data.set(idx, Fx { m: cur.m + val.m });
                    proof {
                        let hits_n = hit_list(pts, shift0, w as int, h as int, rad@, n as nat);
                        let hitp = (pxi as int, pyi as int);
                        assert(hit_list(pts, shift0, w as int, h as int, rad@, (n + 1) as nat)
                            == hits_n.push(hitp));
                        assert(hits_n.push(hitp).drop_last() =~= hits_n);
                        assert(hits_n.push(hitp).last() == hitp);
                    }
                }
                ti = ti + 1;
            }
            pi = pi + 1;
            proof {
                assert((pi - 1) * NTHETA + NTHETA == pi * NTHETA) by (nonlinear_arith);
            }
        }
        Ok(())
    }

    /// Compute centroids for every nominal grid point of this image's
    /// extent, each shifted by the exposure's known shift. Fails on a
    /// non-positive pitch, or on the first window with zero flux.
    pub fn cogs(&self, grid: &Grid, rad: usize) -> (r: Result<Vec<Centroid>, MavDACError>)
        requires
            self.wf(),
            self.bounded(),
            grid_in_range(*grid),
            rad <= DIM_LIM,
        ensures
            match r {
                Ok(v) => {
                    let pts = spec_all_points(*grid, self.shape@[1] as int, self.shape@[0] as int);
                    &&& pitch_v(*grid) > 0
                    &&& v@.len() == pts.len()
                    &&& forall|i: int|
                        0 <= i < pts.len() ==> #[trigger] v@[i] == spec_cog(
                            *self,
                            translate_pt(pts[i], self.shift),
                            rad as int,
                        ) && flux_of(
                            spec_blob_full(*self, translate_pt(pts[i], self.shift), rad as int),
                        ) != 0
                },
                Err(e) => e == MavDACError::Geometry && pitch_v(*grid) <= 0 || e
                    == MavDACError::Measurement && pitch_v(*grid) > 0 && exists|i: int|
                    0 <= i < spec_all_points(
                        *grid,
                        self.shape@[1] as int,
                        self.shape@[0] as int,
                    ).len() && flux_of(
                        spec_blob_full(
                            *self,
                            translate_pt(
                                spec_all_points(
                                    *grid,
                                    self.shape@[1] as int,
                                    self.shape@[0] as int,
                                )[i],
                                self.shift,
                            ),
                            rad as int,
                        ),
                    ) == 0,
            },
    {
        let w = self.shape[1];
        let h = self.shape[0];
        let points = match grid.all_points(w, h) {
            Ok(points) => points,
            Err(e) => {
                return Err(e);
            },
        };
        let ghost pts = spec_all_points(*grid, self.shape@[1] as int, self.shape@[0] as int);
        proof {
            crate::geom::lemma_filter_extent_elems(
                crate::geom::cand_prefix(
                    *grid,
                    w as int,
                    h as int,
                    ((2 * crate::geom::grid_radius(w as int, h as int)) * (2
                        * crate::geom::grid_radius(w as int, h as int))) as nat,
                ),
                w as int,
                h as int,
            );
        }
        let mut out: Vec<Centroid> = Vec::new();
        let mut i: usize = 0;
        while i < points.len()
            invariant
                self.wf(),
                self.bounded(),
                rad <= DIM_LIM,
                points@ == pts,
                pitch_v(*grid) > 0,
                pts == spec_all_points(*grid, self.shape@[1] as int, self.shape@[0] as int),
                w == self.shape@[1],
                h == self.shape@[0],
                forall|j: int| 0 <= j < pts.len() ==> in_extent(#[trigger] pts[j], w as int, h as int),
                i <= pts.len(),
                out@.len() == i,
                forall|j: int|
                    0 <= j < i ==> #[trigger] out@[j] == spec_cog(
                        *self,
                        translate_pt(pts[j], self.shift),
                        rad as int,
                    ),
                forall|j: int|
                    0 <= j < i ==> flux_of(
                        spec_blob_full(*self, translate_pt(#[trigger] pts[j], self.shift), rad as int),
                    ) != 0,
            decreases pts.len() - i,
        {
            let point = points[i].add(self.shift);
            proof {
                assert(point == translate_pt(pts[i as int], self.shift));
            }
            match self.cog(&point, rad) {
                Ok(c) => {
                    out.push(c);
                },
                Err(e) => {
                    proof {
                        assert(flux_of(
                            spec_blob_full(
                                *self,
                                translate_pt(pts[i as int], self.shift),
                                rad as int,
                            ),
                        ) == 0);
                    }
                    return Err(e);
                },
            }
            i = i + 1;
        }
        Ok(out)
    }
}

} // verus!
