//! Geometry, centroider, and coordinate-parsing behaviour on concrete data.
use mavdac::Centroid;
use mavdac::Coordinate;
use mavdac::Fx;
use mavdac::Grid;
use mavdac::Image;
use mavdac::MavDACError;
use mavdac::trig::fx_cos;
use mavdac::trig::fx_sin;
use mavdac::trig::FX_HALF_PI;
use mavdac::trig::FX_PI;
use mavdac::Vec2D;
use mavdac::FX_SCALE;

fn fx(v: i64) -> Fx {
    Fx::from_int(v)
}

fn vec2(x: i64, y: i64) -> Vec2D {
    Vec2D { x: fx(x), y: fx(y) }
}

fn zero_image(w: usize, h: usize, shift: Vec2D) -> Image {
    let data = vec![Fx { m: 0 }; w * h];
    Image::new(data, shift, [h, w]).unwrap()
}

fn put(img: &mut Image, x: usize, y: usize, val: Fx) {
    let w = img.shape[1];
    img.data[y * w + x] = val;
}

#[test]
fn fx_arithmetic_is_exact() {
    assert_eq!(fx(3).add(fx(4)).m, 7 * FX_SCALE);
    assert_eq!(fx(3).sub(fx(4)).m, -FX_SCALE);
    assert_eq!(fx(3).mul(fx(4)).m, 12 * FX_SCALE);
    assert_eq!(fx(12).div(fx(4)).m, 3 * FX_SCALE);
    // truncation toward zero on both signs
    assert_eq!(fx(-7).div(fx(2)).m, -7 * FX_SCALE / 2);
    assert_eq!(Fx { m: 3 }.mul(Fx { m: 3 }).m, 0);
    assert!(fx(1).lt(fx(2)));
    assert!(fx(2).gt(fx(1)));
}

#[test]
fn vec2d_componentwise_ops() {
    let a = vec2(1, 2);
    let b = vec2(3, -4);
    let s = a.add(b);
    assert_eq!((s.x.m, s.y.m), (4 * FX_SCALE, -2 * FX_SCALE));
    let d = a.sub(b);
    assert_eq!((d.x.m, d.y.m), (-2 * FX_SCALE, 6 * FX_SCALE));
    let m = a.mul(fx(5));
    assert_eq!((m.x.m, m.y.m), (5 * FX_SCALE, 10 * FX_SCALE));
    assert_eq!((a.x(), a.y()), (fx(1), fx(2)));
}

#[test]
fn grid_rejects_nonpositive_pitch() {
    let g = Grid::Hex { pitch: fx(0), rotation: fx(0), offset: vec2(0, 0) };
    assert_eq!(g.all_points(64, 64), Err(MavDACError::Geometry));
    let g2 = Grid::Hex { pitch: fx(-3), rotation: fx(0), offset: vec2(0, 0) };
    assert_eq!(g2.all_points(64, 64), Err(MavDACError::Geometry));
}

#[test]
fn grid_enumeration_deterministic() {
    let g = Grid::Hex { pitch: fx(40), rotation: Fx { m: 300 }, offset: vec2(3, 5) };
    let first = g.all_points(256, 256).unwrap();
    let second = g.all_points(256, 256).unwrap();
    assert_eq!(first, second);
    assert!(first.len() > 0);
    for p in &first {
        assert!(p.x.m >= 0 && p.x.m < 256 * FX_SCALE);
        assert!(p.y.m >= 0 && p.y.m < 256 * FX_SCALE);
    }
}

#[test]
fn grid_translation_equivariance() {
    let g = Grid::Hex { pitch: fx(40), rotation: fx(0), offset: vec2(0, 0) };
    let delta = vec2(7, -3);
    let shifted = g.add(delta);
    let base = g.all_points(256, 256).unwrap();
    let moved = g.all_points(256, 256).unwrap();
    assert_eq!(base, moved);
    let translated = shifted.all_points(256, 256).unwrap();
    // every translated-in-extent base point appears among the translated
    // grid's points, and conversely
    let w = 256 * FX_SCALE;
    for p in &base {
        let q = Vec2D { x: p.x.add(delta.x), y: p.y.add(delta.y) };
        if q.x.m >= 0 && q.x.m < w && q.y.m >= 0 && q.y.m < w {
            assert!(translated.contains(&q), "missing translated point");
        }
    }
    for q in &translated {
        let p = Vec2D { x: q.x.sub(delta.x), y: q.y.sub(delta.y) };
        if p.x.m >= 0 && p.x.m < w && p.y.m >= 0 && p.y.m < w {
            assert!(base.contains(&p), "extra translated point");
        }
    }
}

#[test]
fn grid_points_pairwise_distinct() {
    // unrotated grid with a pitch of at least one pixel: no two nominal
    // points coincide, so index-based pairing never aliases pinholes
    let g = Grid::Hex { pitch: fx(100), rotation: fx(0), offset: vec2(0, 0) };
    let pts = g.all_points(256, 256).unwrap();
    for a in 0..pts.len() {
        for b in (a + 1)..pts.len() {
            assert_ne!(pts[a], pts[b]);
        }
    }
}

#[test]
fn centroid_exact_on_point_source() {
    let mut img = zero_image(256, 256, vec2(0, 0));
    put(&mut img, 100, 120, fx(1));
    for rad in [0usize, 1, 2, 5, 9] {
        let c = img.cog(&vec2(100, 120), rad).unwrap();
        assert_eq!(c.cog.x.m, 100 * FX_SCALE);
        assert_eq!(c.cog.y.m, 120 * FX_SCALE);
        assert_eq!(c.flux.m, FX_SCALE);
        assert_eq!(c.pos, vec2(100, 120));
    }
}

#[test]
fn centroid_weighs_flux() {
    // two sources of different weight inside one window: first moment
    let mut img = zero_image(64, 64, vec2(0, 0));
    put(&mut img, 30, 30, fx(1));
    put(&mut img, 32, 30, fx(3));
    let c = img.cog(&vec2(31, 30), 3).unwrap();
    assert_eq!(c.flux.m, 4 * FX_SCALE);
    // cog x = (30 * 1 + 32 * 3) / 4 = 31.5
    assert_eq!(c.cog.x.m, 31 * FX_SCALE + FX_SCALE / 2);
    assert_eq!(c.cog.y.m, 30 * FX_SCALE);
}

#[test]
fn flux_additivity_on_disjoint_windows() {
    let mut a = zero_image(64, 64, vec2(0, 0));
    let mut b = zero_image(64, 64, vec2(0, 0));
    put(&mut a, 20, 20, fx(2));
    put(&mut b, 24, 20, fx(3));
    let mut total = zero_image(64, 64, vec2(0, 0));
    put(&mut total, 20, 20, fx(2));
    put(&mut total, 24, 20, fx(3));
    let centre = vec2(22, 20);
    let fa = a.cog(&centre, 5).unwrap().flux.m;
    let fb = b.cog(&centre, 5).unwrap().flux.m;
    let ft = total.cog(&centre, 5).unwrap().flux.m;
    assert_eq!(ft, fa + fb);
    assert_eq!(ft, 5 * FX_SCALE);
}

#[test]
fn get_blob_selects_circular_window() {
    let mut img = zero_image(64, 64, vec2(0, 0));
    for y in 0..64 {
        for x in 0..64 {
            put(&mut img, x, y, fx(1));
        }
    }
    let blob = img.get_blob(&vec2(30, 30), 2);
    // the radius-2 disc holds 13 pixel centres
    assert_eq!(blob.len(), 13);
    for p in &blob {
        let dx = p.x as i64 - 30;
        let dy = p.y as i64 - 30;
        assert!(dx * dx + dy * dy <= 4);
        assert_eq!(p.val.m, FX_SCALE);
    }
    // a window at the corner is clipped by the image bounds
    let corner = img.get_blob(&vec2(0, 0), 2);
    assert_eq!(corner.len(), 6);
}

#[test]
fn cog_zero_flux_is_measurement_error() {
    let img = zero_image(64, 64, vec2(0, 0));
    assert_eq!(img.cog(&vec2(30, 30), 4), Err(MavDACError::Measurement));
}

#[test]
fn image_new_validates_shape() {
    let data = vec![Fx { m: 0 }; 10];
    assert!(matches!(
        Image::new(data, vec2(0, 0), [4, 4]),
        Err(MavDACError::InvalidFITS)
    ));
    let data = vec![Fx { m: 0 }; 16];
    assert!(Image::new(data, vec2(0, 0), [4, 4]).is_ok());
}

#[test]
fn image_shape_getter() {
    let img = zero_image(8, 4, vec2(0, 0));
    assert_eq!(img.shape(), (4, 8));
}

#[test]
fn centroid_getters() {
    let c = Centroid { cog: vec2(1, 2), flux: fx(3), pos: vec2(4, 5) };
    assert_eq!(c.cogx().m, FX_SCALE);
    assert_eq!(c.cogy().m, 2 * FX_SCALE);
    assert_eq!(c.flux().m, 3 * FX_SCALE);
    assert_eq!(c.posx().m, 4 * FX_SCALE);
    assert_eq!(c.posy().m, 5 * FX_SCALE);
}

#[test]
fn draw_on_circles_adds_flux() {
    let mut img = zero_image(256, 256, vec2(0, 0));
    let g = Grid::Hex { pitch: fx(100), rotation: fx(0), offset: vec2(0, 0) };
    img.draw_on_circles(&g, fx(5), fx(1)).unwrap();
    let total: i128 = img.data.iter().map(|v| v.m).sum();
    assert!(total > 0);
    let bad = Grid::Hex { pitch: fx(0), rotation: fx(0), offset: vec2(0, 0) };
    assert_eq!(img.draw_on_circles(&bad, fx(5), fx(1)), Err(MavDACError::Geometry));
}

#[test]
fn trig_exact_at_quadrant_points() {
    assert_eq!(fx_sin(Fx { m: 0 }).m, 0);
    assert_eq!(fx_cos(Fx { m: 0 }).m, FX_SCALE);
    // a quarter turn lands exactly on the reduced argument zero
    assert_eq!(fx_sin(Fx { m: FX_HALF_PI }).m, FX_SCALE);
    assert_eq!(fx_cos(Fx { m: FX_HALF_PI }).m, 0);
    assert_eq!(fx_sin(Fx { m: 2 * FX_HALF_PI }).m, 0);
    assert_eq!(fx_cos(Fx { m: 2 * FX_HALF_PI }).m, -FX_SCALE);
    // near pi the series approximation is close to the true value
    let s = fx_sin(Fx { m: FX_PI }).m;
    assert!(s.abs() < FX_SCALE / 100, "sin(pi) ~ 0, got {}", s);
    // determinism: same argument, same mantissa
    assert_eq!(fx_sin(Fx { m: 12345678 }).m, fx_sin(Fx { m: 12345678 }).m);
}

#[test]
fn parse_coordinate_plain() {
    let c = Coordinate::parse("12,34").unwrap();
    assert_eq!(c.pos, vec2(12, 34));
    assert_eq!(c.pos(), (fx(12), fx(34)));
}

#[test]
fn parse_coordinate_fraction_and_sign() {
    let c = Coordinate::parse("1.5,-2.25,").unwrap();
    assert_eq!(c.pos.x.m, FX_SCALE + FX_SCALE / 2);
    assert_eq!(c.pos.y.m, -(2 * FX_SCALE + FX_SCALE / 4));
    // a third field is ignored, as written by the library itself
    let c2 = Coordinate::parse("0.5,0.5,extra").unwrap();
    assert_eq!(c2.pos.x.m, FX_SCALE / 2);
    // truncation toward zero of an inexact fraction
    let c3 = Coordinate::parse("0.1,0").unwrap();
    assert_eq!(c3.pos.x.m, FX_SCALE / 10);
}

#[test]
fn parse_coordinate_rejects_malformed() {
    assert_eq!(Coordinate::parse(""), Err(MavDACError::Coordinate));
    assert_eq!(Coordinate::parse("12"), Err(MavDACError::Coordinate));
    assert_eq!(Coordinate::parse("a,1"), Err(MavDACError::Coordinate));
    assert_eq!(Coordinate::parse("1,b"), Err(MavDACError::Coordinate));
    assert_eq!(Coordinate::parse("1..2,3"), Err(MavDACError::Coordinate));
    assert_eq!(Coordinate::parse(",1"), Err(MavDACError::Coordinate));
    assert_eq!(Coordinate::parse("1,"), Err(MavDACError::Coordinate));
    assert_eq!(Coordinate::parse("-,1"), Err(MavDACError::Coordinate));
    assert_eq!(Coordinate::parse(".,1"), Err(MavDACError::Coordinate));
    // more than eighteen digits on one side is out of range
    assert_eq!(
        Coordinate::parse("1234567890123456789012,1"),
        Err(MavDACError::Coordinate)
    );
}
