//! The calibration pipeline: grid generation, per-exposure centroiding,
//! flux filtering, and cross-exposure consensus correction.
//!
//! A grid point survives only if the measurement at **every** exposure has
//! flux strictly above the caller's threshold (a zero-flux or out-of-range
//! measurement always fails, whatever the threshold): the filter unit is the
//! point, not the single measurement, so the per-exposure rows stay aligned.
//! For each surviving point the mean of `measured centre - exposure shift`
//! across exposures becomes the consensus nominal position, and each
//! measurement's `pos` is rewritten to `consensus + exposure shift`.
use vstd::prelude::*;

use crate::errors::MavDACError;
use crate::fx::abs_v;
use crate::fx::idiv;
use crate::fx::FX_SCALE;
use crate::fx::tdiv;
use crate::fx::Fx;
use crate::geom::grid_in_range;
use crate::geom::in_extent;
use crate::geom::pitch_v;
use crate::geom::spec_all_points;
use crate::geom::translate_pt;
use crate::geom::vec2_v;
use crate::geom::Centroid;
use crate::geom::Grid;
use crate::geom::Vec2D;
use crate::geom::DIM_LIM;
use crate::geom::GRID_PAR_LIM;
use crate::image::flux_of;
use crate::image::spec_blob_full;
use crate::image::spec_cog;
use crate::image::Image;

verus! {

/// Largest measured-centre mantissa magnitude the pipeline accepts as a
/// valid measurement; a centre further out is treated as failing the flux
/// filter.
pub const COG_LIM: i128 = 0x4_0000_0000_0000; // 2^50

/// The window flux of pinhole `p` at exposure `j`.
pub open spec fn mc_flux(images: Seq<Image>, p: Vec2D, rad: int, j: int) -> int {
    flux_of(spec_blob_full(images[j], translate_pt(p, images[j].shift), rad))
}

/// The centroid of pinhole `p` at exposure `j` (before consensus
/// correction).
pub open spec fn mc_cog(images: Seq<Image>, p: Vec2D, rad: int, j: int) -> Centroid {
    spec_cog(images[j], translate_pt(p, images[j].shift), rad)
}

/// Whether pinhole `p` survives the filter: at every exposure the flux is
/// strictly above the threshold and nonzero, and the measured centre is
/// within machine range.
pub open spec fn mc_passes(images: Seq<Image>, p: Vec2D, rad: int, thresh: int) -> bool {
    forall|j: int|
        0 <= j < images.len() ==> {
            let f = #[trigger] mc_flux(images, p, rad, j);
            &&& f > thresh
            &&& f != 0
            &&& abs_v(mc_cog(images, p, rad, j).cog.x@) <= COG_LIM
            &&& abs_v(mc_cog(images, p, rad, j).cog.y@) <= COG_LIM
        }
}

/// Partial sum of `measured centre - exposure shift` over the first `n`
/// exposures, x component.
pub open spec fn mc_sum_x(images: Seq<Image>, p: Vec2D, rad: int, n: int) -> int
    decreases n,
{
    if n <= 0 {
        0
    } else {
        mc_sum_x(images, p, rad, n - 1) + mc_cog(images, p, rad, n - 1).cog.x@ - images[n
            - 1].shift.x@
    }
}

/// Partial sum of `measured centre - exposure shift`, y component.
pub open spec fn mc_sum_y(images: Seq<Image>, p: Vec2D, rad: int, n: int) -> int
    decreases n,
{
    if n <= 0 {
        0
    } else {
        mc_sum_y(images, p, rad, n - 1) + mc_cog(images, p, rad, n - 1).cog.y@ - images[n
            - 1].shift.y@
    }
}

/// The consensus nominal position of a surviving pinhole: the mean of
/// `measured centre - exposure shift` across exposures.
pub open spec fn mc_mean_x(images: Seq<Image>, p: Vec2D, rad: int) -> int {
    tdiv(mc_sum_x(images, p, rad, images.len() as int), images.len() as int)
}

/// The consensus nominal position, y component.
pub open spec fn mc_mean_y(images: Seq<Image>, p: Vec2D, rad: int) -> int {
    tdiv(mc_sum_y(images, p, rad, images.len() as int), images.len() as int)
}

/// The row of corrected measurements of a surviving pinhole: one centroid
/// per exposure, with `pos` rewritten to `consensus + exposure shift`.
pub open spec fn mc_entry(images: Seq<Image>, p: Vec2D, rad: int) -> Seq<Centroid> {
    Seq::new(
        images.len(),
        |j: int|
            Centroid {
                cog: mc_cog(images, p, rad, j).cog,
                flux: mc_cog(images, p, rad, j).flux,
                pos: vec2_v(
                    mc_mean_x(images, p, rad) + images[j].shift.x@,
                    mc_mean_y(images, p, rad) + images[j].shift.y@,
                ),
            },
    )
}

/// The whole pipeline output over a pinhole list: the corrected rows of the
/// pinholes that survive the filter, in enumeration order.
pub open spec fn spec_measure(
    images: Seq<Image>,
    pts: Seq<Vec2D>,
    rad: int,
    thresh: int,
) -> Seq<Seq<Centroid>>
    decreases pts.len(),
{
    if pts.len() == 0 {
        Seq::empty()
    } else {
        let rest = spec_measure(images, pts.drop_last(), rad, thresh);
        if mc_passes(images, pts.last(), rad, thresh) {
            rest.push(mc_entry(images, pts.last(), rad))
        } else {
            rest
        }
    }
}

/// Law (end-to-end completeness): when every pinhole clears the flux filter
/// at every exposure — as with synthetic exposures whose sources all carry
/// flux above the threshold — the pipeline returns exactly one row per
/// pinhole and one centroid per exposure, and each row's nominal positions
/// are one consensus position plus the exposure's known shift, so they agree
/// across exposures up to those shifts.
pub proof fn lemma_measure_complete(images: Seq<Image>, pts: Seq<Vec2D>, rad: int, thresh: int)
    requires
        forall|k: int| 0 <= k < pts.len() ==> mc_passes(images, #[trigger] pts[k], rad, thresh),
    ensures
        spec_measure(images, pts, rad, thresh).len() == pts.len(),
        forall|k: int|
            0 <= k < pts.len() ==> #[trigger] spec_measure(images, pts, rad, thresh)[k]
                == mc_entry(images, pts[k], rad),
        forall|k: int, j: int|
            0 <= k < pts.len() && 0 <= j < images.len() ==> (#[trigger] spec_measure(
                images,
                pts,
                rad,
                thresh,
            )[k][j]).pos == vec2_v(
                mc_mean_x(images, pts[k], rad) + images[j].shift.x@,
                mc_mean_y(images, pts[k], rad) + images[j].shift.y@,
            ),
    decreases pts.len(),
{
    if pts.len() > 0 {
        let prev = pts.drop_last();
        assert(forall|k: int|
            0 <= k < prev.len() ==> mc_passes(images, #[trigger] prev[k], rad, thresh)) by {
            assert(forall|k: int| 0 <= k < prev.len() ==> prev[k] == pts[k]);
        }
        lemma_measure_complete(images, prev, rad, thresh);
        let rows = spec_measure(images, pts, rad, thresh);
        let rest = spec_measure(images, prev, rad, thresh);
        assert(mc_passes(images, pts.last(), rad, thresh));
        assert(rows == rest.push(mc_entry(images, pts.last(), rad)));
        assert forall|k: int| 0 <= k < pts.len() implies #[trigger] rows[k] == mc_entry(
            images,
            pts[k],
            rad,
        ) by {
            if k < prev.len() {
                assert(rows[k] == rest[k]);
                assert(prev[k] == pts[k]);
            } else {
                assert(rows[k] == mc_entry(images, pts.last(), rad));
            }
        }
        assert forall|k: int, j: int|
            0 <= k < pts.len() && 0 <= j < images.len() implies (#[trigger] rows[k][j]).pos
            == vec2_v(
            mc_mean_x(images, pts[k], rad) + images[j].shift.x@,
            mc_mean_y(images, pts[k], rad) + images[j].shift.y@,
        ) by {
            assert(rows[k] == mc_entry(images, pts[k], rad));
            assert(mc_entry(images, pts[k], rad)[j] == Centroid {
                cog: mc_cog(images, pts[k], rad, j).cog,
                flux: mc_cog(images, pts[k], rad, j).flux,
                pos: vec2_v(
                    mc_mean_x(images, pts[k], rad) + images[j].shift.x@,
                    mc_mean_y(images, pts[k], rad) + images[j].shift.y@,
                ),
            });
        }
    }
}

/// The deep view of a vector of centroid rows.
pub open spec fn rows_deep(v: Seq<Vec<Centroid>>) -> Seq<Seq<Centroid>> {
    v.map_values(|r: Vec<Centroid>| r@)
}

/// Every image is well formed with bounded pixels.
pub open spec fn images_ok(images: Seq<Image>) -> bool {
    forall|j: int|
        0 <= j < images.len() ==> (#[trigger] images[j]).wf() && images[j].bounded()
}

/// Measure the corrected centroids of a set of exposures.
///
/// Implements the pipeline: enumerate the nominal grid points against the
/// first exposure's extent, centroid every point at every exposure (each
/// shifted by that exposure's known shift), drop every point whose flux at
/// any exposure is at or below the threshold (or whose measurement is
/// degenerate), and rewrite each surviving measurement's nominal position to
/// the cross-exposure consensus plus the exposure shift. With no exposures
/// the result is empty; otherwise it fails exactly when the pitch is not
/// positive.
pub fn measure_cogs(images: &Vec<Image>, grid: &Grid, rad: usize, fluxthresh: Fx) -> (r: Result<
    Vec<Vec<Centroid>>,
    MavDACError,
>)
    requires
        images_ok(images@),
        images@.len() <= 0x10_0000,
        grid_in_range(*grid),
        rad <= DIM_LIM,
    ensures
        match r {
            Ok(v) => {
                ||| (images@.len() == 0 && v@.len() == 0)
                ||| (images@.len() > 0 && pitch_v(*grid) > 0 && rows_deep(v@) == spec_measure(
                    images@,
                    spec_all_points(
                        *grid,
                        images@[0].shape@[1] as int,
                        images@[0].shape@[0] as int,
                    ),
                    rad as int,
                    fluxthresh@,
                ))
            },
            Err(e) => images@.len() > 0 && e == MavDACError::Geometry && pitch_v(*grid) <= 0,
        },
{
    if images.len() == 0 {
        return Ok(Vec::new());
    }
    let (h0, w0) = images[0].shape();
    let points = match grid.all_points(w0, h0) {
        Ok(points) => points,
        Err(e) => {
            return Err(e);
        },
    };
    let ghost pts = spec_all_points(*grid, w0 as int, h0 as int);
    proof {
        crate::geom::lemma_filter_extent_elems(
            crate::geom::cand_prefix(
                *grid,
                w0 as int,
                h0 as int,
                ((2 * crate::geom::grid_radius(w0 as int, h0 as int)) * (2
                    * crate::geom::grid_radius(w0 as int, h0 as int))) as nat,
            ),
            w0 as int,
            h0 as int,
        );
    }
    let mut out: Vec<Vec<Centroid>> = Vec::new();
    let mut i: usize = 0;
    while i < points.len()
        invariant
            images_ok(images@),
            0 < images@.len() <= 0x10_0000,
            rad <= DIM_LIM,
            points@ == pts,
            w0 <= DIM_LIM,
            h0 <= DIM_LIM,
            forall|t: int| 0 <= t < pts.len() ==> in_extent(#[trigger] pts[t], w0 as int, h0 as int),
            i <= pts.len(),
            rows_deep(out@) == spec_measure(
                images@,
                pts.take(i as int),
                rad as int,
                fluxthresh@,
            ),
        decreases pts.len() - i,
    {
        let p = points[i];
        match pinhole_row(images, p, rad, fluxthresh) {
            Some(row) => {
                let ghost prev = out@;
                out.push(row);
                proof {
                    assert(rows_deep(out@) =~= rows_deep(prev).push(row@));
                }
            },
            None => {},
        }
        proof {
            assert(pts.take(i + 1).drop_last() =~= pts.take(i as int));
            assert(pts.take(i + 1).last() == pts[i as int]);
        }
        i = i + 1;
    }
    proof {
        assert(pts.take(pts.len() as int) =~= pts);
    }
    Ok(out)
}

/// Measure one pinhole at every exposure: `Some` row of corrected
/// measurements when the pinhole passes the flux filter at every exposure,
/// `None` when it fails anywhere.
fn pinhole_row(images: &Vec<Image>, p: Vec2D, rad: usize, fluxthresh: Fx) -> (r: Option<
    Vec<Centroid>,
>)
    requires
        images_ok(images@),
        0 < images@.len() <= 0x10_0000,
        rad <= DIM_LIM,
        0 <= p.x@ <= 0x8000_0000,
        0 <= p.y@ <= 0x8000_0000,
    ensures
        match r {
            Some(row) => mc_passes(images@, p, rad as int, fluxthresh@) && row@ == mc_entry(
                images@,
                p,
                rad as int,
            ),
            None => !mc_passes(images@, p, rad as int, fluxthresh@),
        },
{
    let nimg = images.len();
    // filter: the flux at every exposure must clear the threshold, and the
    // measured centre must be a sane value
    let mut j: usize = 0;
    while j < nimg
        invariant
            images_ok(images@),
            0 < nimg == images@.len() <= 0x10_0000,
            rad <= DIM_LIM,
            0 <= p.x@ <= 0x8000_0000,
            0 <= p.y@ <= 0x8000_0000,
            j <= nimg,
            forall|t: int|
                0 <= t < j ==> {
                    let f = #[trigger] mc_flux(images@, p, rad as int, t);
                    &&& f > fluxthresh@
                    &&& f != 0
                    &&& abs_v(mc_cog(images@, p, rad as int, t).cog.x@) <= COG_LIM
                    &&& abs_v(mc_cog(images@, p, rad as int, t).cog.y@) <= COG_LIM
                },
        decreases nimg - j,
    {
        let img = &images[j];
        let point = p.add(img.shift);
        proof {
            assert(point == translate_pt(p, images@[j as int].shift));
        }
        let (sx, sy, fl) = img.cog_sums(&point, rad);
        proof {
            assert(fl@ == mc_flux(images@, p, rad as int, j as int));
            crate::fx::lemma_mul_mag(
                sx@,
                FX_SCALE as int,
                crate::image::SUM_LIM as int,
                FX_SCALE as int,
            );
            crate::fx::lemma_mul_mag(
                sy@,
                FX_SCALE as int,
                crate::image::SUM_LIM as int,
                FX_SCALE as int,
            );
            if fl@ != 0 {
                crate::fx::lemma_tdiv_bound(sx@ * FX_SCALE, fl@);
                crate::fx::lemma_tdiv_bound(sy@ * FX_SCALE, fl@);
                assert(mc_cog(images@, p, rad as int, j as int).cog.x@ == crate::fx::fx_div_v(
                    sx@,
                    fl@,
                ));
                assert(mc_cog(images@, p, rad as int, j as int).cog.y@ == crate::fx::fx_div_v(
                    sy@,
                    fl@,
                ));
            }
        }
        if fl.m <= fluxthresh.m || fl.m == 0 {
            return None;
        }
        let cx = sx.div(fl);
        let cy = sy.div(fl);
        if cx.m < -COG_LIM || cx.m > COG_LIM || cy.m < -COG_LIM || cy.m > COG_LIM {
            return None;
        }
        j = j + 1;
    }
    // all exposures pass: collect the per-exposure centroids
    let mut row: Vec<Centroid> = Vec::new();
    let mut j2: usize = 0;
    while j2 < nimg
        invariant
            images_ok(images@),
            0 < nimg == images@.len() <= 0x10_0000,
            rad <= DIM_LIM,
            0 <= p.x@ <= 0x8000_0000,
            0 <= p.y@ <= 0x8000_0000,
            mc_passes(images@, p, rad as int, fluxthresh@),
            j2 <= nimg,
            row@.len() == j2,
            forall|t: int|
                0 <= t < j2 ==> #[trigger] row@[t] == mc_cog(images@, p, rad as int, t),
        decreases nimg - j2,
    {
        let img = &images[j2];
        let point = p.add(img.shift);
        proof {
            assert(point == translate_pt(p, images@[j2 as int].shift));
            assert(mc_flux(images@, p, rad as int, j2 as int) != 0);
        }
        match img.cog(&point, rad) {
            Ok(c) => {
                row.push(c);
            },
            Err(e) => {
                proof {
                    assert(false);
                }
                return None;
            },
        }
        j2 = j2 + 1;
    }
    // consensus: mean of (measured centre - exposure shift) across exposures
    let mut sumx: i128 = 0;
    let mut sumy: i128 = 0;
    let mut j3: usize = 0;
    while j3 < nimg
        invariant
            images_ok(images@),
            0 < nimg == images@.len() <= 0x10_0000,
            mc_passes(images@, p, rad as int, fluxthresh@),
            row@.len() == nimg,
            forall|t: int|
                0 <= t < nimg ==> #[trigger] row@[t] == mc_cog(images@, p, rad as int, t),
            j3 <= nimg,
            sumx == mc_sum_x(images@, p, rad as int, j3 as int),
            sumy == mc_sum_y(images@, p, rad as int, j3 as int),
            abs_v(sumx as int) <= j3 * (COG_LIM + GRID_PAR_LIM),
            abs_v(sumy as int) <= j3 * (COG_LIM + GRID_PAR_LIM),
        decreases nimg - j3,
    {
        proof {
            assert(mc_flux(images@, p, rad as int, j3 as int) != 0);
            assert(abs_v(mc_cog(images@, p, rad as int, j3 as int).cog.x@) <= COG_LIM);
            assert(abs_v(mc_cog(images@, p, rad as int, j3 as int).cog.y@) <= COG_LIM);
            assert(abs_v(row@[j3 as int].cog.x@) <= COG_LIM);
            assert(images@[j3 as int].wf());
            assert(abs_v(images@[j3 as int].shift.x@) <= GRID_PAR_LIM);
            assert(j3 * (COG_LIM + GRID_PAR_LIM) <= 0x10_0000 * (COG_LIM + GRID_PAR_LIM))
                by (nonlinear_arith)
                requires
                    0 <= j3 <= 0x10_0000,
            ;
            assert((j3 + 1) * (COG_LIM + GRID_PAR_LIM) == j3 * (COG_LIM + GRID_PAR_LIM) + (
            COG_LIM + GRID_PAR_LIM)) by (nonlinear_arith);
        }
        sumx = sumx + row[j3].cog.x.m - images[j3].shift.x.m;
        sumy = sumy + row[j3].cog.y.m - images[j3].shift.y.m;
        j3 = j3 + 1;
    }
    proof {
        crate::fx::lemma_tdiv_mag(
            sumx as int,
            nimg as int,
            (nimg as int) * ((COG_LIM + GRID_PAR_LIM) as int),
        );
        crate::fx::lemma_tdiv_mag(
            sumy as int,
            nimg as int,
            (nimg as int) * ((COG_LIM + GRID_PAR_LIM) as int),
        );
        vstd::arithmetic::div_mod::lemma_div_multiples_vanish(
            (COG_LIM + GRID_PAR_LIM) as int,
            nimg as int,
        );
    }
    let meanx: i128 = idiv(sumx, nimg as i128);
    let meany: i128 = idiv(sumy, nimg as i128);
    // correction: rewrite each measurement's nominal position to
    // consensus + exposure shift
    let mut corrected: Vec<Centroid> = Vec::new();
    let mut j4: usize = 0;
    while j4 < nimg
        invariant
            images_ok(images@),
            0 < nimg == images@.len() <= 0x10_0000,
            mc_passes(images@, p, rad as int, fluxthresh@),
            row@.len() == nimg,
            forall|t: int|
                0 <= t < nimg ==> #[trigger] row@[t] == mc_cog(images@, p, rad as int, t),
            meanx == mc_mean_x(images@, p, rad as int),
            meany == mc_mean_y(images@, p, rad as int),
            abs_v(meanx as int) <= COG_LIM + GRID_PAR_LIM,
            abs_v(meany as int) <= COG_LIM + GRID_PAR_LIM,
            j4 <= nimg,
            corrected@.len() == j4,
            forall|t: int|
                0 <= t < j4 ==> #[trigger] corrected@[t] == mc_entry(images@, p, rad as int)[t],
        decreases nimg - j4,
    {
        let c = row[j4];
        let pos = Vec2D {
            x: Fx { m: meanx + images[j4].shift.x.m },
            y: Fx { m: meany + images[j4].shift.y.m },
        };
        corrected.push(Centroid { cog: c.cog, flux: c.flux, pos });
        j4 = j4 + 1;
    }
    proof {
        assert(corrected@ =~= mc_entry(images@, p, rad as int));
    }
    Some(corrected)
}

} // verus!
