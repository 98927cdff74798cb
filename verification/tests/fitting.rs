//! Basis families, the least-squares fitter, and the measurement pipeline on
//! synthetic data.
use mavdac::evaluate;
use mavdac::fit;
use mavdac::measure_cogs;
use mavdac::BiVarFourierDistortions;
use mavdac::BiVarPolyDistortions;
use mavdac::Centroid;
use mavdac::DistortionBasis;
use mavdac::Fx;
use mavdac::Grid;
use mavdac::Image;
use mavdac::MavDACError;
use mavdac::Vec2D;
use mavdac::FX_SCALE;

fn fx(v: i64) -> Fx {
    Fx::from_int(v)
}

fn vec2(x: i64, y: i64) -> Vec2D {
    Vec2D { x: fx(x), y: fx(y) }
}

#[test]
fn poly_basis_counts_and_indexing() {
    let b = BiVarPolyDistortions::new(2, [256, 256]);
    // (d+1)(d+2)/2 - 1 basis functions
    assert_eq!(b.ncoeffs(), 5);
    assert_eq!(b.coeffs.len(), 5);
    // triangular order: (1,0) (1,1) (2,0) (2,1) (2,2)
    assert_eq!(b.nk_lut, vec![(1, 0), (1, 1), (2, 0), (2, 1), (2, 2)]);
}

#[test]
fn poly_sample_values() {
    let b = BiVarPolyDistortions::new(2, [256, 256]);
    // at (256, 128): normalized x = 1, y = 0
    let s_y = b.sample_xy(fx(256), fx(128), 0); // y^1
    let s_x = b.sample_xy(fx(256), fx(128), 1); // x^1
    let s_x2 = b.sample_xy(fx(256), fx(128), 4); // x^2
    assert_eq!(s_y.m, 0);
    assert_eq!(s_x.m, FX_SCALE);
    assert_eq!(s_x2.m, FX_SCALE);
    // at (0, 0): normalized x = -1, y = -1
    assert_eq!(b.sample_xy(fx(0), fx(0), 1).m, -FX_SCALE);
    assert_eq!(b.sample_xy(fx(0), fx(0), 4).m, FX_SCALE);
    // at the centre both normalized coordinates vanish
    assert_eq!(b.sample_xy(fx(128), fx(128), 1).m, 0);
}

#[test]
fn fourier_basis_counts_and_samples() {
    let b = BiVarFourierDistortions::new(2, [256, 256]);
    assert_eq!(b.ncoeffs(), 16);
    // index 0 is cos(0 x) cos(0 y) == 1 everywhere
    assert_eq!(b.sample_xy(fx(17), fx(200), 0).m, FX_SCALE);
    // index 1 is cos(0 x) sin(0 y) == 0 everywhere
    assert_eq!(b.sample_xy(fx(17), fx(200), 1).m, 0);
}

#[test]
fn eval_is_coefficient_weighted_sum() {
    let mut b = BiVarPolyDistortions::new(1, [256, 256]);
    // coefficients: index 0 weighs y, index 1 weighs x
    b.load_coeffs(vec![(fx(2), fx(0)), (fx(3), fx(1))]).unwrap();
    // at (256, 256): normalized x = 1, y = 1
    let v = b.eval(&vec2(256, 256));
    assert_eq!(v.x.m, 5 * FX_SCALE);
    assert_eq!(v.y.m, FX_SCALE);
    let (ex, ey) = b.eval_xy(fx(256), fx(256));
    assert_eq!((ex, ey), (v.x, v.y));
    let via_free = evaluate(&b, &vec2(256, 256));
    assert_eq!(via_free, v);
}

#[test]
fn coeff_round_trip_reproduces_eval() {
    let mut a = BiVarPolyDistortions::new(2, [256, 256]);
    let coeffs = vec![
        (Fx { m: 123456 }, Fx { m: -777 }),
        (fx(2), fx(3)),
        (Fx { m: -1 }, Fx { m: 99999 }),
        (fx(0), fx(-4)),
        (Fx { m: 31415 }, Fx { m: 27182 }),
    ];
    a.load_coeffs(coeffs).unwrap();
    let exported = a.coeffs();
    let mut b = BiVarPolyDistortions::new(2, [256, 256]);
    b.load_coeffs(exported).unwrap();
    for pos in [vec2(0, 0), vec2(37, 201), vec2(128, 128), vec2(256, 19)] {
        assert_eq!(a.eval(&pos), b.eval(&pos));
    }
}

#[test]
fn load_coeffs_validates_length() {
    let mut b = BiVarPolyDistortions::new(1, [64, 64]);
    assert_eq!(
        b.load_coeffs(vec![(fx(1), fx(1))]),
        Err(MavDACError::Precondition)
    );
    assert!(b.load_coeffs(vec![(fx(1), fx(1)), (fx(2), fx(2))]).is_ok());
    let mut f = BiVarFourierDistortions::new(1, [64, 64]);
    assert_eq!(f.load_coeffs(vec![]), Err(MavDACError::Precondition));
}

/// Synthesize measurements from known coefficients at the four extent
/// corners plus the centre (exactly representable samples), and check the
/// fit returns the exact ground truth.
#[test]
fn fit_recovers_exact_ground_truth() {
    let truth = vec![(fx(1), Fx { m: FX_SCALE / 2 }), (Fx { m: -FX_SCALE / 4 }, fx(2))];
    let mut model = BiVarPolyDistortions::new(1, [256, 256]);
    model.load_coeffs(truth.clone()).unwrap();
    let positions = [
        vec2(0, 0),
        vec2(256, 0),
        vec2(0, 256),
        vec2(256, 256),
        vec2(128, 128),
    ];
    let measurements: Vec<Centroid> = positions
        .iter()
        .map(|p| {
            let d = model.eval(p);
            Centroid {
                cog: Vec2D { x: p.x.add(d.x), y: p.y.add(d.y) },
                flux: fx(1),
                pos: *p,
            }
        })
        .collect();
    let mut fitted = BiVarPolyDistortions::new(1, [256, 256]);
    fit(&mut fitted, &measurements).unwrap();
    assert_eq!(fitted.coeffs(), truth);
    // and the fitted model reproduces the synthesized displacements exactly
    for (p, m) in positions.iter().zip(measurements.iter()) {
        let d = fitted.eval(p);
        assert_eq!(p.x.add(d.x), m.cog.x);
        assert_eq!(p.y.add(d.y), m.cog.y);
    }
}

#[test]
fn fit_rejects_degenerate_fourier_family() {
    // with maximum frequency 1 every frequency factor is zero, so three of
    // the four basis functions vanish identically: the Gram matrix is
    // singular and the fit must refuse rather than return garbage
    let positions: Vec<Vec2D> = (0..16)
        .map(|i| vec2(16 * i + 3, (48 * i + 20) % 256))
        .collect();
    let measurements: Vec<Centroid> = positions
        .iter()
        .map(|p| Centroid { cog: p.add(vec2(1, 0)), flux: fx(1), pos: *p })
        .collect();
    let mut fitted = BiVarFourierDistortions::new(1, [256, 256]);
    assert_eq!(fit(&mut fitted, &measurements), Err(MavDACError::Linalg));
}

#[test]
fn fit_recovers_quadratic_ground_truth() {
    // degree 2: five basis functions y, x, y^2, x y, x^2; on the 3 x 3
    // extent grid the normalized samples are exactly 0 or +-1, so the
    // synthesized displacements are exact and the fit recovers the
    // coefficients bit for bit
    let truth = vec![
        (fx(1), fx(-1)),
        (Fx { m: FX_SCALE / 2 }, fx(2)),
        (Fx { m: -FX_SCALE / 4 }, Fx { m: FX_SCALE / 8 }),
        (fx(3), Fx { m: -FX_SCALE / 2 }),
        (Fx { m: FX_SCALE / 16 }, fx(0)),
    ];
    let mut model = BiVarPolyDistortions::new(2, [256, 256]);
    model.load_coeffs(truth.clone()).unwrap();
    let mut positions: Vec<Vec2D> = Vec::new();
    for x in [0i64, 128, 256] {
        for y in [0i64, 128, 256] {
            positions.push(vec2(x, y));
        }
    }
    let measurements: Vec<Centroid> = positions
        .iter()
        .map(|p| {
            let d = model.eval(p);
            Centroid {
                cog: Vec2D { x: p.x.add(d.x), y: p.y.add(d.y) },
                flux: fx(1),
                pos: *p,
            }
        })
        .collect();
    let mut fitted = BiVarPolyDistortions::new(2, [256, 256]);
    fit(&mut fitted, &measurements).unwrap();
    assert_eq!(fitted.coeffs(), truth);
}

#[test]
fn fit_rejects_singular_input() {
    // four measurements all at the same position: rank-one design
    let p = vec2(64, 64);
    let meas: Vec<Centroid> = (0..4)
        .map(|_| Centroid { cog: vec2(65, 64), flux: fx(1), pos: p })
        .collect();
    let mut b = BiVarPolyDistortions::new(1, [256, 256]);
    assert_eq!(fit(&mut b, &meas), Err(MavDACError::Linalg));
}

#[test]
fn fit_rejects_oversized_basis() {
    // ten or more basis functions exceed the exact solver's dimension cap
    let positions: Vec<Vec2D> = (0..20)
        .map(|i| vec2(12 * i + 5, (40 * i + 9) % 256))
        .collect();
    let measurements: Vec<Centroid> = positions
        .iter()
        .map(|p| Centroid { cog: p.add(vec2(1, 0)), flux: fx(1), pos: *p })
        .collect();
    // degree 4 has 14 basis functions
    let mut b = BiVarPolyDistortions::new(4, [256, 256]);
    assert_eq!(fit(&mut b, &measurements), Err(MavDACError::Linalg));
}

#[test]
fn fit_rejects_too_few_measurements() {
    let meas = vec![Centroid { cog: vec2(1, 1), flux: fx(1), pos: vec2(1, 1) }];
    let mut b = BiVarPolyDistortions::new(1, [256, 256]);
    let before = b.coeffs();
    assert_eq!(fit(&mut b, &meas), Err(MavDACError::Precondition));
    // a failed fit leaves the basis untouched
    assert_eq!(b.coeffs(), before);
}

fn exposure(points: &[Vec2D], shift: Vec2D, w: usize, h: usize) -> Image {
    let mut data = vec![Fx { m: 0 }; w * h];
    for p in points {
        let x = ((p.x.m + shift.x.m) / FX_SCALE) as usize;
        let y = ((p.y.m + shift.y.m) / FX_SCALE) as usize;
        data[y * w + x] = fx(1);
    }
    Image::new(data, shift, [h, w]).unwrap()
}

/// Three synthetic exposures of a hexagonal grid, each shifted by a known
/// offset; the pipeline must return every grid point at every exposure, with
/// consensus positions equal across exposures up to the known shifts.
#[test]
fn measure_cogs_end_to_end() {
    let grid = Grid::Hex { pitch: fx(100), rotation: fx(0), offset: vec2(0, 0) };
    let points = grid.all_points(256, 256).unwrap();
    assert_eq!(points.len(), 7);
    let shifts = [vec2(0, 0), vec2(3, 2), vec2(-2, 4)];
    let images: Vec<Image> = shifts
        .iter()
        .map(|s| exposure(&points, *s, 256, 256))
        .collect();
    let rows = measure_cogs(&images, &grid, 5, Fx { m: FX_SCALE / 2 }).unwrap();
    assert_eq!(rows.len(), 7);
    for row in &rows {
        assert_eq!(row.len(), 3);
        for (j, c) in row.iter().enumerate() {
            assert_eq!(c.flux.m, FX_SCALE);
            // pos fields agree across exposures up to the known shift
            let bx = c.pos.x.m - shifts[j].x.m;
            let by = c.pos.y.m - shifts[j].y.m;
            assert_eq!(bx, row[0].pos.x.m - shifts[0].x.m);
            assert_eq!(by, row[0].pos.y.m - shifts[0].y.m);
        }
    }
}

#[test]
fn measure_cogs_empty_and_errors() {
    let grid = Grid::Hex { pitch: fx(100), rotation: fx(0), offset: vec2(0, 0) };
    let none: Vec<Image> = vec![];
    assert_eq!(measure_cogs(&none, &grid, 5, fx(0)).unwrap().len(), 0);
    let bad = Grid::Hex { pitch: fx(0), rotation: fx(0), offset: vec2(0, 0) };
    let img = exposure(&[], vec2(0, 0), 64, 64);
    assert_eq!(
        measure_cogs(&vec![img], &bad, 5, fx(0)),
        Err(MavDACError::Geometry)
    );
}

#[test]
fn measure_cogs_filters_dim_points() {
    // one exposure with sources, one without: every point fails the filter
    let grid = Grid::Hex { pitch: fx(100), rotation: fx(0), offset: vec2(0, 0) };
    let points = grid.all_points(256, 256).unwrap();
    let lit = exposure(&points, vec2(0, 0), 256, 256);
    let dark = exposure(&[], vec2(1, 1), 256, 256);
    let rows = measure_cogs(&vec![lit, dark], &grid, 5, Fx { m: FX_SCALE / 2 }).unwrap();
    assert_eq!(rows.len(), 0);
}

#[test]
fn cogs_measures_every_grid_point() {
    let grid = Grid::Hex { pitch: fx(100), rotation: fx(0), offset: vec2(0, 0) };
    let points = grid.all_points(256, 256).unwrap();
    let img = exposure(&points, vec2(0, 0), 256, 256);
    let cogs = img.cogs(&grid, 5).unwrap();
    assert_eq!(cogs.len(), points.len());
    for (c, p) in cogs.iter().zip(points.iter()) {
        assert_eq!(c.pos, *p);
        assert_eq!(c.flux.m, FX_SCALE);
        // the measured centre is the source pixel: the truncated position
        assert_eq!(c.cog.x.m, (p.x.m / FX_SCALE) * FX_SCALE);
        assert_eq!(c.cog.y.m, (p.y.m / FX_SCALE) * FX_SCALE);
    }
}
