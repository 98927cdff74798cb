//! The least-squares fitter.
//!
//! Given measurement pairs (nominal position, measured centre) and a basis,
//! the fitter forms the normal equations of the design matrix exactly over
//! the integers, inverts the Gram matrix with an exact integer witness, and
//! assigns the solved coefficients back onto the basis. It fails explicitly
//! — never silently returning a degenerate result — and only under the
//! stated conditions: fewer measurements than basis functions, a singular
//! Gram matrix, or the stated machine-range bound of the exact solve.
use vstd::prelude::*;

use crate::basis::DistortionBasis;
use crate::basis::COEFF_LIM;
use crate::basis::SAMPLE_LIM;
use crate::errors::MavDACError;
use crate::fx::abs_v;
use crate::fx::idiv;
use crate::fx::tdiv;
use crate::fx::Fx;
use crate::fx::FX_SCALE;
use crate::geom::Centroid;
use crate::geom::Vec2D;
use crate::image::POINT_LIM;
use crate::linalg::adj_exec;
use crate::linalg::adj_s;
use crate::linalg::bounds_check;
use crate::linalg::check_witness;
use crate::linalg::det_exec;
use crate::linalg::dot_exec;
use crate::linalg::fact_s;
use crate::linalg::lemma_bounds_components;
use crate::linalg::lemma_det_bound;
use crate::linalg::lemma_fact_pow_step;
use crate::linalg::mat_absmax_exec;
use crate::linalg::mat_absmax_s;
use crate::linalg::mat_gcd_exec;
use crate::linalg::mat_gcd_s;
use crate::linalg::max_i;
use crate::linalg::pow_s;
use crate::linalg::row_absmax_s;
use crate::linalg::scaled_mat;
use crate::linalg::solve_refused;
use crate::linalg::dot_n;
use crate::linalg::inverse_witness;
use crate::linalg::mat_v;
use crate::linalg::mul_entry;
use crate::linalg::vec_absmax_exec;
use crate::linalg::vec_v;
use crate::linalg::DET_CAP;
use crate::linalg::SOLVE_LIM;

verus! {

/// Gram-matrix entries never exceed this magnitude (measurement count times
/// the squared sample bound).
pub const GRAM_ABS_LIM: i128 = 0x100_0000_0000_0000; // 2^56

/// Right-hand-side entries never exceed this magnitude.
pub const RHS_ABS_LIM: i128 = 0x2_0000_0000_0000_0000_0000; // 2^81

/// The design-matrix entry of measurement `i` and basis index `j`: the
/// basis function sampled at the measurement's nominal position.
pub open spec fn samp<B: DistortionBasis>(b: &B, meas: Seq<Centroid>, i: int, j: int) -> int {
    b.sample_spec(meas[i].pos, j)
}

/// The Gram matrix entry `(j, k)` over the first `n` measurements:
/// the exact integer sum of `samp(i, j) * samp(i, k)`.
pub open spec fn gram_entry<B: DistortionBasis>(
    b: &B,
    meas: Seq<Centroid>,
    j: int,
    k: int,
    n: int,
) -> int
    decreases n,
{
    if n <= 0 {
        0
    } else {
        gram_entry(b, meas, j, k, n - 1) + samp(b, meas, n - 1, j) * samp(b, meas, n - 1, k)
    }
}

/// The full Gram matrix of a basis over a measurement list.
pub open spec fn gram_mat<B: DistortionBasis>(b: &B, meas: Seq<Centroid>) -> Seq<Seq<int>> {
    Seq::new(
        b.ncoeffs_spec() as nat,
        |j: int| Seq::new(b.ncoeffs_spec() as nat, |k: int| gram_entry(b, meas, j, k, meas.len() as int)),
    )
}

/// The horizontal residual of measurement `i`: measured minus nominal.
pub open spec fn resid_x(meas: Seq<Centroid>, i: int) -> int {
    meas[i].cog.x@ - meas[i].pos.x@
}

/// The vertical residual of measurement `i`.
pub open spec fn resid_y(meas: Seq<Centroid>, i: int) -> int {
    meas[i].cog.y@ - meas[i].pos.y@
}

/// Entry `j` of the normal-equation right-hand side, x component, over the
/// first `n` measurements.
pub open spec fn rhs_entry_x<B: DistortionBasis>(b: &B, meas: Seq<Centroid>, j: int, n: int) -> int
    decreases n,
{
    if n <= 0 {
        0
    } else {
        rhs_entry_x(b, meas, j, n - 1) + samp(b, meas, n - 1, j) * resid_x(meas, n - 1)
    }
}

/// Entry `j` of the normal-equation right-hand side, y component.
pub open spec fn rhs_entry_y<B: DistortionBasis>(b: &B, meas: Seq<Centroid>, j: int, n: int) -> int
    decreases n,
{
    if n <= 0 {
        0
    } else {
        rhs_entry_y(b, meas, j, n - 1) + samp(b, meas, n - 1, j) * resid_y(meas, n - 1)
    }
}

/// The full right-hand side vector, x component.
pub open spec fn rhs_x<B: DistortionBasis>(b: &B, meas: Seq<Centroid>) -> Seq<int> {
    Seq::new(b.ncoeffs_spec() as nat, |j: int| rhs_entry_x(b, meas, j, meas.len() as int))
}

/// The full right-hand side vector, y component.
pub open spec fn rhs_y<B: DistortionBasis>(b: &B, meas: Seq<Centroid>) -> Seq<int> {
    Seq::new(b.ncoeffs_spec() as nat, |j: int| rhs_entry_y(b, meas, j, meas.len() as int))
}

/// Every measurement's positions are inside the basis extent and within
/// machine range.
pub open spec fn meas_ok<B: DistortionBasis>(b: &B, meas: Seq<Centroid>) -> bool {
    forall|i: int|
        0 <= i < meas.len() ==> {
            let c = #[trigger] meas[i];
            &&& b.pos_ok(c.pos)
            &&& abs_v(c.pos.x@) <= POINT_LIM
            &&& abs_v(c.pos.y@) <= POINT_LIM
            &&& abs_v(c.cog.x@) <= POINT_LIM
            &&& abs_v(c.cog.y@) <= POINT_LIM
        }
}

/// What the solved coefficients are on success: the exact rational solution
/// of the normal equations `G c == rhs`, formed with the inverse witness
/// `(mw, d)` and truncated to fixed point at the end.
pub open spec fn fit_solution<B: DistortionBasis>(
    pre: B,
    post: B,
    meas: Seq<Centroid>,
    mw: Seq<Seq<int>>,
    d: int,
) -> bool {
    let mdim = pre.ncoeffs_spec();
    &&& inverse_witness(mw, gram_mat(&pre, meas), d, mdim)
    &&& forall|j: int|
        0 <= j < mdim ==> (#[trigger] post.coeffs_spec()[j]).x@ == tdiv(
            FX_SCALE * dot_n(mw[j], rhs_x(&pre, meas), mdim),
            d,
        ) && post.coeffs_spec()[j].y@ == tdiv(FX_SCALE * dot_n(mw[j], rhs_y(&pre, meas), mdim), d)
}

/// Fit a basis to a displacement field in the least-squares sense.
///
/// Each measurement contributes the residual `cog - pos` and the design row
/// of basis samples at `pos`; the solved coefficient vector is assigned back
/// onto the basis, one 2D coefficient per basis index, order preserved.
/// Fails with `Precondition` exactly when there are fewer measurements than
/// basis functions. Fails with `Linalg` only under the stated conditions of
/// [`solve_refused`]: the basis count exceeds the solver's dimension cap,
/// the Gram matrix is zero or singular, the stated machine-range bound on
/// the exact solve is exceeded, or a solved coefficient leaves the accepted
/// range — so on a nonsingular system within the stated bounds the fit is
/// obliged to succeed.
pub fn fit<B: DistortionBasis>(basis: &mut B, measurements: &Vec<Centroid>) -> (r: Result<
    (),
    MavDACError,
>)
    requires
        old(basis).basis_wf(),
        meas_ok(old(basis), measurements@),
        measurements@.len() <= 0x10_0000,
    ensures
        match r {
            Ok(()) => {
                &&& measurements@.len() >= old(basis).ncoeffs_spec()
                &&& final(basis).basis_wf()
                &&& final(basis).ncoeffs_spec() == old(basis).ncoeffs_spec()
                &&& (forall|p: Vec2D| #[trigger] final(basis).pos_ok(p) == old(basis).pos_ok(p))
                &&& (forall|p: Vec2D, i: int|
                    #[trigger] final(basis).sample_spec(p, i) == old(basis).sample_spec(p, i))
                &&& exists|mw: Seq<Seq<int>>, d: int|
                    #[trigger] fit_solution(*old(basis), *final(basis), measurements@, mw, d)
            },
            Err(e) => {
                &&& *final(basis) == *old(basis)
                &&& (e == MavDACError::Precondition || e == MavDACError::Linalg)
                &&& (e == MavDACError::Precondition <==> measurements@.len() < old(
                    basis,
                ).ncoeffs_spec())
                &&& (e == MavDACError::Linalg ==> solve_refused(
                    gram_mat(old(basis), measurements@),
                    rhs_x(old(basis), measurements@),
                    rhs_y(old(basis), measurements@),
                    COEFF_LIM as int,
                    old(basis).ncoeffs_spec(),
                ))
            },
        },
{
    proof {
        basis.lemma_basis_facts();
    }
    let mdim = basis.get_coeffs().len();
    let n = measurements.len();
    if n < mdim {
        return Err(MavDACError::Precondition);
    }
    let ghost pre = *basis;
    let ghost meas = measurements@;

    // design matrix: n rows of mdim basis samples at the nominal positions
    let mut s: Vec<Vec<i128>> = Vec::new();
    let mut i: usize = 0;
    while i < n
        invariant
            basis.basis_wf(),
            *basis == pre,
            meas == measurements@,
            meas_ok(basis, meas),
            mdim == basis.ncoeffs_spec(),
            n == meas.len(),
            i <= n,
            s@.len() == i,
            forall|t: int| 0 <= t < i ==> (#[trigger] s@[t])@.len() == mdim,
            forall|t: int, j: int|
                0 <= t < i && 0 <= j < mdim ==> (#[trigger] s@[t]@[j]) == samp(basis, meas, t, j)
                    && abs_v(s@[t]@[j] as int) <= SAMPLE_LIM,
        decreases n - i,
    {
        let mut row: Vec<i128> = Vec::new();
        let mut j: usize = 0;
        while j < mdim
            invariant
                basis.basis_wf(),
                *basis == pre,
                meas == measurements@,
                meas_ok(basis, meas),
                mdim == basis.ncoeffs_spec(),
                n == meas.len(),
                i < n,
                j <= mdim,
                row@.len() == j,
                forall|j2: int|
                    0 <= j2 < j ==> (#[trigger] row@[j2]) == samp(basis, meas, i as int, j2)
                        && abs_v(row@[j2] as int) <= SAMPLE_LIM,
            decreases mdim - j,
        {
            proof {
                basis.lemma_sample_bound(meas[i as int].pos, j as int);
            }
            let v = basis.sample(&measurements[i].pos, j);
            row.push(v.m);
            j = j + 1;
        }
        s.push(row);
        i = i + 1;
    }

    // Gram matrix and right-hand sides, exact integer sums
    let mut g: Vec<Vec<i128>> = Vec::new();
    let mut j: usize = 0;
    while j < mdim
        invariant
            n == meas.len(),
            n <= 0x10_0000,
            mdim <= n,
            s@.len() == n,
            forall|t: int| 0 <= t < n ==> (#[trigger] s@[t])@.len() == mdim,
            forall|t: int, j2: int|
                0 <= t < n && 0 <= j2 < mdim ==> (#[trigger] s@[t]@[j2]) == samp(&pre, meas, t, j2)
                    && abs_v(s@[t]@[j2] as int) <= SAMPLE_LIM,
            j <= mdim,
            g@.len() == j,
            forall|t: int| 0 <= t < j ==> (#[trigger] g@[t])@.len() == mdim,
            forall|t: int, k2: int|
                0 <= t < j && 0 <= k2 < mdim ==> (#[trigger] g@[t]@[k2]) == gram_entry(
                    &pre,
                    meas,
                    t,
                    k2,
                    n as int,
                ) && abs_v(g@[t]@[k2] as int) <= GRAM_ABS_LIM,
        decreases mdim - j,
    {
        let mut grow: Vec<i128> = Vec::new();
        let mut k: usize = 0;
        while k < mdim
            invariant
                n == meas.len(),
                n <= 0x10_0000,
                mdim <= n,
                s@.len() == n,
                forall|t: int| 0 <= t < n ==> (#[trigger] s@[t])@.len() == mdim,
                forall|t: int, j2: int|
                    0 <= t < n && 0 <= j2 < mdim ==> (#[trigger] s@[t]@[j2]) == samp(
                        &pre,
                        meas,
                        t,
                        j2,
                    ) && abs_v(s@[t]@[j2] as int) <= SAMPLE_LIM,
                j < mdim,
                k <= mdim,
                grow@.len() == k,
                forall|k2: int|
                    0 <= k2 < k ==> (#[trigger] grow@[k2]) == gram_entry(
                        &pre,
                        meas,
                        j as int,
                        k2,
                        n as int,
                    ) && abs_v(grow@[k2] as int) <= GRAM_ABS_LIM,
            decreases mdim - k,
        {
            let mut acc: i128 = 0;
            let mut t: usize = 0;
            while t < n
                invariant
                    n == meas.len(),
                    n <= 0x10_0000,
                    s@.len() == n,
                    forall|t2: int| 0 <= t2 < n ==> (#[trigger] s@[t2])@.len() == mdim,
                    forall|t2: int, j2: int|
                        0 <= t2 < n && 0 <= j2 < mdim ==> (#[trigger] s@[t2]@[j2]) == samp(
                            &pre,
                            meas,
                            t2,
                            j2,
                        ) && abs_v(s@[t2]@[j2] as int) <= SAMPLE_LIM,
                    j < mdim,
                    k < mdim,
                    t <= n,
                    acc == gram_entry(&pre, meas, j as int, k as int, t as int),
                    abs_v(acc as int) <= t * 0x10_0000_0000,
                decreases n - t,
            {
                proof {
                    crate::fx::lemma_mul_mag(
                        s@[t as int]@[j as int] as int,
                        s@[t as int]@[k as int] as int,
                        SAMPLE_LIM as int,
                        SAMPLE_LIM as int,
                    );
                }
                acc = acc + s[t][j] * s[t][k];
                t = t + 1;
            }
            proof {
                assert(n * 0x10_0000_0000 <= GRAM_ABS_LIM) by (nonlinear_arith)
                    requires
                        0 <= n <= 0x10_0000,
                ;
            }
            grow.push(acc);
            k = k + 1;
        }
        g.push(grow);
        j = j + 1;
    }

    let (ax, ay) = build_rhs(&s, measurements, mdim, basis);
    proof {
        assert(mat_v(g@) =~~= gram_mat(&pre, meas));
        assert(vec_v(ax@) =~= rhs_x(&pre, meas));
        assert(vec_v(ay@) =~= rhs_y(&pre, meas));
    }
    let ghost gsv = mat_v(g@);
    let ghost axv = vec_v(ax@);
    let ghost ayv = vec_v(ay@);

    // the cofactor solve is factorial in the dimension: apply the cap
    if mdim > DET_CAP {
        return Err(MavDACError::Linalg);
    }
    proof {
        assert(mdim >= 1);
        assert(forall|t: int, u: int|
            0 <= t < mdim && 0 <= u < mdim ==> (#[trigger] g@[t]@[u]) != i128::MIN);
        assert(forall|t: int| 0 <= t < mdim ==> (#[trigger] ax@[t]) != i128::MIN);
        assert(forall|t: int| 0 <= t < mdim ==> (#[trigger] ay@[t]) != i128::MIN);
    }
    // strip the common factor of the Gram matrix
    let gam = mat_gcd_exec(&g, mdim, Ghost(GRAM_ABS_LIM as int));
    if gam == 0 {
        return Err(MavDACError::Linalg);
    }
    let ghost hv = scaled_mat(gsv, gam as int, mdim as int);
    let mut h: Vec<Vec<i128>> = Vec::new();
    let mut i5: usize = 0;
    while i5 < mdim
        invariant
            gsv == mat_v(g@),
            gsv == gram_mat(&pre, meas),
            axv == rhs_x(&pre, meas),
            ayv == rhs_y(&pre, meas),
            meas == measurements@,
            *basis == pre,
            pre == *old(basis),
            mdim == pre.ncoeffs_spec(),
            n == meas.len(),
            mdim <= n,
            hv == scaled_mat(gsv, gam as int, mdim as int),
            g@.len() == mdim,
            forall|t: int| 0 <= t < mdim ==> (#[trigger] g@[t])@.len() == mdim,
            forall|t: int, u: int|
                0 <= t < mdim && 0 <= u < mdim ==> abs_v((#[trigger] g@[t]@[u]) as int)
                    <= GRAM_ABS_LIM,
            1 <= gam <= GRAM_ABS_LIM,
            gam == mat_gcd_s(gsv, mdim as int, mdim as int),
            i5 <= mdim,
            h@.len() == i5,
            forall|t: int| 0 <= t < i5 ==> (#[trigger] h@[t])@.len() == mdim,
            forall|t: int, u: int|
                0 <= t < i5 && 0 <= u < mdim ==> (#[trigger] h@[t]@[u]) as int == hv[t][u]
                    && abs_v(h@[t]@[u] as int) <= GRAM_ABS_LIM,
        decreases mdim - i5,
    {
        let mut row: Vec<i128> = Vec::new();
        let mut j5: usize = 0;
        while j5 < mdim
            invariant
                gsv == mat_v(g@),
                gsv == gram_mat(&pre, meas),
                axv == rhs_x(&pre, meas),
                ayv == rhs_y(&pre, meas),
                meas == measurements@,
                *basis == pre,
                pre == *old(basis),
                mdim == pre.ncoeffs_spec(),
                n == meas.len(),
                mdim <= n,
                hv == scaled_mat(gsv, gam as int, mdim as int),
                g@.len() == mdim,
                forall|t: int| 0 <= t < mdim ==> (#[trigger] g@[t])@.len() == mdim,
                forall|t: int, u: int|
                    0 <= t < mdim && 0 <= u < mdim ==> abs_v((#[trigger] g@[t]@[u]) as int)
                        <= GRAM_ABS_LIM,
                1 <= gam <= GRAM_ABS_LIM,
                gam == mat_gcd_s(gsv, mdim as int, mdim as int),
                i5 < mdim,
                j5 <= mdim,
                row@.len() == j5,
                forall|u: int|
                    0 <= u < j5 ==> (#[trigger] row@[u]) as int == hv[i5 as int][u] && abs_v(
                        row@[u] as int,
                    ) <= GRAM_ABS_LIM,
            decreases mdim - j5,
        {
            let e = g[i5][j5];
            proof {
                crate::fx::lemma_tdiv_bound(e as int, gam as int);
            }
            let q = idiv(e, gam);
            proof {
                crate::fx::lemma_mul_mag(q as int, gam as int, GRAM_ABS_LIM as int, GRAM_ABS_LIM as int);
            }
            if q * gam != e {
                proof {
                    assert(tdiv(gsv[i5 as int][j5 as int], gam as int) * gam != gsv[i5 as int][j5 as int]);
                    assert(solve_refused(gsv, axv, ayv, COEFF_LIM as int, mdim as int));
                }
                return Err(MavDACError::Linalg);
            }
            row.push(q);
            j5 = j5 + 1;
        }
        h.push(row);
        i5 = i5 + 1;
    }
    proof {
        assert forall|t: int, u: int| 0 <= t < mdim && 0 <= u < mdim implies (#[trigger] mat_v(
            h@,
        )[t][u]) == hv[t][u] by {
            assert(mat_v(h@)[t][u] == h@[t]@[u] as int);
        }
        assert(mat_v(h@) =~~= hv);
        assert(forall|t: int, u: int|
            0 <= t < mdim && 0 <= u < mdim ==> (#[trigger] h@[t]@[u]) != i128::MIN);
    }
    // magnitude maxima for the stated machine-range bound
    let bh0 = mat_absmax_exec(&h, mdim);
    let bh = if bh0 < 1 {
        1
    } else {
        bh0
    };
    let gmax = mat_absmax_exec(&g, mdim);
    let axm = vec_absmax_exec(&ax, mdim);
    let aym = vec_absmax_exec(&ay, mdim);
    let inner_am: i128 = if axm >= aym {
        axm
    } else {
        aym
    };
    let data_max: i128 = if gmax >= inner_am {
        gmax
    } else {
        inner_am
    };
    let gam1: i128 = if gam >= 1 {
        gam
    } else {
        1
    };
    let xmax: i128 = if data_max >= gam1 {
        data_max
    } else {
        gam1
    };
    proof {
        assert(bh as int == max_i(mat_absmax_s(hv, mdim as int, mdim as int), 1));
        assert(xmax as int == max_i(
            max_i(
                mat_absmax_s(gsv, mdim as int, mdim as int),
                max_i(row_absmax_s(axv, mdim as int), row_absmax_s(ayv, mdim as int)),
            ),
            max_i(gam as int, 1),
        ));
    }
    if !bounds_check(bh, xmax, mdim) {
        proof {
            assert(solve_refused(gsv, axv, ayv, COEFF_LIM as int, mdim as int));
        }
        return Err(MavDACError::Linalg);
    }
    proof {
        lemma_bounds_components(bh as int, xmax as int, mdim as int);
    }
    let ghost flim = fact_s(mdim as nat) * pow_s(bh as int, mdim as nat);
    let deth = det_exec(&h, mdim, Ghost(bh as int));
    if deth == 0 {
        proof {
            assert(solve_refused(gsv, axv, ayv, COEFF_LIM as int, mdim as int));
        }
        return Err(MavDACError::Linalg);
    }
    proof {
        assert(crate::linalg::sq_wf(mat_v(h@), mdim as int)) by {
            assert(forall|t: int|
                0 <= t < mdim ==> (#[trigger] mat_v(h@)[t]).len() == h@[t]@.len());
        }
        lemma_det_bound(mat_v(h@), mdim as int, bh as int);
        assert(abs_v(deth as int) <= flim);
        assert(gam * deth != 0 && abs_v((gam * deth) as int) <= flim * xmax) by (nonlinear_arith)
            requires
                1 <= gam <= xmax,
                deth != 0,
                abs_v(deth as int) <= flim,
                flim >= 1,
        ;
        assert(flim * xmax <= SOLVE_LIM);
    }
    let d = gam * deth;
    let ghost sub_lim = fact_s((mdim - 1) as nat) * pow_s(bh as int, (mdim - 1) as nat);
    let mw = adj_exec(&h, mdim, Ghost(bh as int));
    proof {
        lemma_fact_pow_step(mdim as int, bh as int);
        crate::linalg::lemma_fact_mono(0, (mdim - 1) as nat);
        crate::linalg::lemma_pow_mono(bh as int, 0, (mdim - 1) as nat);
        assert(sub_lim >= 1) by (nonlinear_arith)
            requires
                sub_lim == fact_s((mdim - 1) as nat) * pow_s(bh as int, (mdim - 1) as nat),
                fact_s((mdim - 1) as nat) >= 1,
                pow_s(bh as int, (mdim - 1) as nat) >= 1,
        ;
        assert(mdim * (sub_lim * (gmax as int)) <= SOLVE_LIM) by (nonlinear_arith)
            requires
                1 <= sub_lim <= flim,
                0 <= gmax <= xmax,
                1 <= mdim,
                flim * mdim * (xmax as int) <= SOLVE_LIM,
                flim >= 1,
        ;
        assert(mdim * (sub_lim * (axm as int)) <= SOLVE_LIM) by (nonlinear_arith)
            requires
                1 <= sub_lim <= flim,
                0 <= axm <= xmax,
                1 <= mdim,
                flim * mdim * (xmax as int) <= SOLVE_LIM,
                flim >= 1,
        ;
        assert(mdim * (sub_lim * (aym as int)) <= SOLVE_LIM) by (nonlinear_arith)
            requires
                1 <= sub_lim <= flim,
                0 <= aym <= xmax,
                1 <= mdim,
                flim * mdim * (xmax as int) <= SOLVE_LIM,
                flim >= 1,
        ;
    }
    if !check_witness(&mw, &g, d, mdim, Ghost(sub_lim), Ghost(gmax as int)) {
        proof {
            assert(mat_v(mw@) == adj_s(hv, mdim as int));
            assert(!inverse_witness(adj_s(hv, mdim as int), gsv, (gam * deth) as int, mdim as int));
            assert(solve_refused(gsv, axv, ayv, COEFF_LIM as int, mdim as int));
        }
        return Err(MavDACError::Linalg);
    }
    proof {
        assert(inverse_witness(mat_v(mw@), gsv, d as int, mdim as int));
    }

    // back-substitute: coefficient j is (S * (adj . rhs)_j) / d, exactly
    let mut new_coeffs: Vec<Vec2D> = Vec::new();
    let mut j4: usize = 0;
    while j4 < mdim
        invariant
            basis.basis_wf(),
            *basis == pre,
            pre == *old(basis),
            meas == measurements@,
            mdim == basis.ncoeffs_spec(),
            n == meas.len(),
            mdim <= n,
            1 <= mdim,
            gsv == mat_v(g@),
            gsv == gram_mat(&pre, meas),
            axv == vec_v(ax@),
            ayv == vec_v(ay@),
            axv == rhs_x(&pre, meas),
            ayv == rhs_y(&pre, meas),
            hv == scaled_mat(gsv, gam as int, mdim as int),
            gam == mat_gcd_s(gsv, mdim as int, mdim as int),
            1 <= gam,
            deth == crate::linalg::det_s(hv, mdim as int),
            d == gam * deth,
            d != 0,
            d != i128::MIN,
            mw@.len() == mdim,
            forall|t: int| 0 <= t < mdim ==> (#[trigger] mw@[t])@.len() == mdim,
            mat_v(mw@) == adj_s(hv, mdim as int),
            crate::linalg::entries_le(mat_v(mw@), mdim as int, sub_lim),
            sub_lim >= 0,
            ax@.len() == mdim,
            ay@.len() == mdim,
            forall|t: int| 0 <= t < mdim ==> abs_v(#[trigger] vec_v(ax@)[t]) <= axm as int,
            forall|t: int| 0 <= t < mdim ==> abs_v(#[trigger] vec_v(ay@)[t]) <= aym as int,
            0 <= axm,
            0 <= aym,
            mdim * (sub_lim * (axm as int)) <= SOLVE_LIM,
            mdim * (sub_lim * (aym as int)) <= SOLVE_LIM,
            j4 <= mdim,
            new_coeffs@.len() == j4,
            forall|t: int|
                0 <= t < j4 ==> (#[trigger] new_coeffs@[t]).x@ == tdiv(
                    FX_SCALE * dot_n(mat_v(mw@)[t], vec_v(ax@), mdim as int),
                    d as int,
                ) && new_coeffs@[t].y@ == tdiv(
                    FX_SCALE * dot_n(mat_v(mw@)[t], vec_v(ay@), mdim as int),
                    d as int,
                ) && abs_v(new_coeffs@[t].x@) <= COEFF_LIM && abs_v(new_coeffs@[t].y@)
                    <= COEFF_LIM,
        decreases mdim - j4,
    {
        let nx = dot_exec(&mw, &ax, j4, mdim, Ghost(sub_lim), Ghost(axm as int));
        let ny = dot_exec(&mw, &ay, j4, mdim, Ghost(sub_lim), Ghost(aym as int));
        proof {
            crate::fx::lemma_mul_mag(nx as int, FX_SCALE as int, SOLVE_LIM as int, FX_SCALE as int);
            crate::fx::lemma_mul_mag(ny as int, FX_SCALE as int, SOLVE_LIM as int, FX_SCALE as int);
        }
        let sx = nx * FX_SCALE;
        let sy = ny * FX_SCALE;
        let cx = idiv(sx, d);
        let cy = idiv(sy, d);
        if cx < -COEFF_LIM || cx > COEFF_LIM || cy < -COEFF_LIM || cy > COEFF_LIM {
            proof {
                assert(mat_v(mw@)[j4 as int] == adj_s(hv, mdim as int)[j4 as int]);
                assert(cx as int == tdiv(
                    FX_SCALE * dot_n(adj_s(hv, mdim as int)[j4 as int], axv, mdim as int),
                    (gam * deth) as int,
                ));
                assert(cy as int == tdiv(
                    FX_SCALE * dot_n(adj_s(hv, mdim as int)[j4 as int], ayv, mdim as int),
                    (gam * deth) as int,
                ));
                assert(solve_refused(gsv, axv, ayv, COEFF_LIM as int, mdim as int));
            }
            return Err(MavDACError::Linalg);
        }
        new_coeffs.push(Vec2D { x: Fx { m: cx }, y: Fx { m: cy } });
        j4 = j4 + 1;
    }
    basis.set_coeffs(new_coeffs);
    proof {
        assert(fit_solution(pre, *basis, meas, mat_v(mw@), d as int));
    }
    Ok(())
}

/// `dot_n` as a plain sum.
proof fn lemma_dot_as_sum(a: Seq<int>, b: Seq<int>, n: int)
    ensures
        dot_n(a, b, n) == crate::linalg::sum_n(n, |i: int| a[i] * b[i]),
    decreases n,
{
    if n > 0 {
        lemma_dot_as_sum(a, b, n - 1);
    }
}

/// A Gram entry as a plain sum.
proof fn lemma_gram_as_sum<B: DistortionBasis>(b: &B, meas: Seq<Centroid>, j: int, k: int, n: int)
    ensures
        gram_entry(b, meas, j, k, n) == crate::linalg::sum_n(
            n,
            |i: int| samp(b, meas, i, j) * samp(b, meas, i, k),
        ),
    decreases n,
{
    if n > 0 {
        lemma_gram_as_sum(b, meas, j, k, n - 1);
    }
}

/// A right-hand-side entry as a plain sum, x component.
proof fn lemma_rhsx_as_sum<B: DistortionBasis>(b: &B, meas: Seq<Centroid>, j: int, n: int)
    ensures
        rhs_entry_x(b, meas, j, n) == crate::linalg::sum_n(
            n,
            |i: int| samp(b, meas, i, j) * resid_x(meas, i),
        ),
    decreases n,
{
    if n > 0 {
        lemma_rhsx_as_sum(b, meas, j, n - 1);
    }
}

/// A right-hand-side entry as a plain sum, y component.
proof fn lemma_rhsy_as_sum<B: DistortionBasis>(b: &B, meas: Seq<Centroid>, j: int, n: int)
    ensures
        rhs_entry_y(b, meas, j, n) == crate::linalg::sum_n(
            n,
            |i: int| samp(b, meas, i, j) * resid_y(meas, i),
        ),
    decreases n,
{
    if n > 0 {
        lemma_rhsy_as_sum(b, meas, j, n - 1);
    }
}

/// A matrix-product entry as a plain sum over its row.
proof fn lemma_mul_entry_as_sum(
    arow: Seq<int>,
    a: Seq<Seq<int>>,
    b: Seq<Seq<int>>,
    j: int,
    k: int,
    n: int,
)
    requires
        arow == a[j],
    ensures
        mul_entry(a, b, j, k, n) == crate::linalg::sum_n(n, |l: int| arow[l] * b[l][k]),
    decreases n,
{
    if n > 0 {
        lemma_mul_entry_as_sum(arow, a, b, j, k, n - 1);
    }
}

/// The scaled witness-row dot with a right-hand side, folded through the
/// synthesis hypothesis, collapses to `d` times the true coefficient: the
/// common core of the exact-recovery law for both components.
proof fn lemma_recover_component<B: DistortionBasis>(
    b: &B,
    meas: Seq<Centroid>,
    mw: Seq<Seq<int>>,
    d: int,
    cs: Seq<int>,
    rhs: Seq<int>,
    resid: spec_fn(int) -> int,
    j: int,
)
    requires
        b.basis_wf(),
        inverse_witness(mw, gram_mat(b, meas), d, b.ncoeffs_spec()),
        cs.len() == b.ncoeffs_spec(),
        rhs.len() == b.ncoeffs_spec(),
        forall|l: int|
            0 <= l < b.ncoeffs_spec() ==> #[trigger] rhs[l] == crate::linalg::sum_n(
                meas.len() as int,
                |i: int| samp(b, meas, i, l) * resid(i),
            ),
        forall|i: int|
            0 <= i < meas.len() ==> FX_SCALE * #[trigger] resid(i) == crate::linalg::sum_n(
                b.ncoeffs_spec(),
                |k: int| cs[k] * samp(b, meas, i, k),
            ),
        0 <= j < b.ncoeffs_spec(),
    ensures
        FX_SCALE * dot_n(mw[j], rhs, b.ncoeffs_spec()) == cs[j] * d,
{
    let mdim = b.ncoeffs_spec();
    let n = meas.len() as int;
    let g = gram_mat(b, meas);
    // step 1: the scaled right-hand side is the Gram matrix applied to the
    // true coefficients: S * rhs[l] == sum_k cs[k] * g[l][k]
    assert forall|l: int| 0 <= l < mdim implies FX_SCALE * rhs[l] == crate::linalg::sum_n(
        mdim,
        |k: int| cs[k] * g[l][k],
    ) by {
        let plain = |i: int| samp(b, meas, i, l) * resid(i);
        let mid = |i: int| FX_SCALE * plain(i);
        crate::linalg::lemma_sum_scale(n, plain, mid, FX_SCALE as int);
        assert(rhs[l] == crate::linalg::sum_n(n, plain));
        let af = |i: int| samp(b, meas, i, l);
        let bf = |k: int| cs[k];
        let cf = |i2: int, k: int| samp(b, meas, i2, k);
        crate::linalg::lemma_sum_factor(n, mdim, af, bf, cf);
        let flhs = |l2: int| af(l2) * crate::linalg::sum_n(mdim, |k: int| bf(k) * cf(l2, k));
        assert forall|i: int| 0 <= i < n implies #[trigger] mid(i) == flhs(i) by {
            assert((|k: int| bf(k) * cf(i, k)) =~= (|k: int| cs[k] * samp(b, meas, i, k)));
            assert(FX_SCALE * resid(i) == crate::linalg::sum_n(
                mdim,
                |k: int| cs[k] * samp(b, meas, i, k),
            ));
            assert(FX_SCALE * (samp(b, meas, i, l) * resid(i)) == samp(b, meas, i, l) * (FX_SCALE
                * resid(i))) by (nonlinear_arith);
        }
        crate::linalg::lemma_sum_congruence(n, mid, flhs);
        let frhs = |k: int| bf(k) * crate::linalg::sum_n(n, |l2: int| af(l2) * cf(l2, k));
        let target = |k: int| cs[k] * g[l][k];
        assert forall|k: int| 0 <= k < mdim implies #[trigger] frhs(k) == target(k) by {
            assert((|l2: int| af(l2) * cf(l2, k)) =~= (
            |i: int| samp(b, meas, i, l) * samp(b, meas, i, k)));
            lemma_gram_as_sum(b, meas, l, k, n);
            assert(g[l][k] == gram_entry(b, meas, l, k, n));
        }
        crate::linalg::lemma_sum_congruence(mdim, frhs, target);
        assert(crate::linalg::sum_n(n, flhs) == crate::linalg::sum_n(mdim, frhs));
    }
    // step 2: fold through the witness: S * (mw[j] . rhs) == cs[j] * d
    let row = mw[j];
    lemma_dot_as_sum(row, rhs, mdim);
    let plain2 = |l: int| row[l] * rhs[l];
    assert(dot_n(mw[j], rhs, mdim) == crate::linalg::sum_n(mdim, plain2));
    let mid2 = |l: int| FX_SCALE * plain2(l);
    crate::linalg::lemma_sum_scale(mdim, plain2, mid2, FX_SCALE as int);
    let af2 = |l: int| row[l];
    let bf2 = |k: int| cs[k];
    let cf2 = |l: int, k: int| g[l][k];
    crate::linalg::lemma_sum_factor(mdim, mdim, af2, bf2, cf2);
    let flhs2 = |l: int| af2(l) * crate::linalg::sum_n(mdim, |k: int| bf2(k) * cf2(l, k));
    assert forall|l: int| 0 <= l < mdim implies #[trigger] mid2(l) == flhs2(l) by {
        assert((|k: int| bf2(k) * cf2(l, k)) =~= (|k: int| cs[k] * g[l][k]));
        assert(FX_SCALE * rhs[l] == crate::linalg::sum_n(mdim, |k: int| cs[k] * g[l][k]));
        assert(FX_SCALE * (row[l] * rhs[l]) == row[l] * (FX_SCALE * rhs[l])) by (nonlinear_arith);
    }
    crate::linalg::lemma_sum_congruence(mdim, mid2, flhs2);
    let frhs2 = |k: int| bf2(k) * crate::linalg::sum_n(mdim, |l: int| af2(l) * cf2(l, k));
    let diag = |k: int| cs[k] * (if j == k { d } else { 0 });
    assert forall|k: int| 0 <= k < mdim implies #[trigger] frhs2(k) == diag(k) by {
        assert((|l: int| af2(l) * cf2(l, k)) =~= (|l: int| row[l] * g[l][k]));
        lemma_mul_entry_as_sum(row, mw, g, j, k, mdim);
        assert(mul_entry(mw, g, j, k, mdim) == (if j == k {
            d
        } else {
            0
        }));
        if j != k {
            assert(cs[k] * 0 == 0) by (nonlinear_arith);
        }
    }
    crate::linalg::lemma_sum_congruence(mdim, frhs2, diag);
    assert forall|k: int| 0 <= k < mdim && k != j implies #[trigger] diag(k) == 0 by {
        assert(cs[k] * 0 == 0) by (nonlinear_arith);
    }
    crate::linalg::lemma_sum_single(mdim, diag, j, cs[j] * d);
    assert(crate::linalg::sum_n(mdim, flhs2) == crate::linalg::sum_n(mdim, frhs2));
}

/// Law (fit recovers exact ground truth): when the residuals are exactly the
/// displacement modelled by a coefficient vector — `FX_SCALE * (cog - pos)`
/// equals the coefficient-weighted sample sums at every measurement — a
/// successful fit returns exactly that coefficient vector.
pub proof fn lemma_fit_recovers_truth<B: DistortionBasis>(
    pre: B,
    post: B,
    meas: Seq<Centroid>,
    mw: Seq<Seq<int>>,
    d: int,
    cx: Seq<int>,
    cy: Seq<int>,
)
    requires
        pre.basis_wf(),
        fit_solution(pre, post, meas, mw, d),
        cx.len() == pre.ncoeffs_spec(),
        cy.len() == pre.ncoeffs_spec(),
        forall|i: int|
            0 <= i < meas.len() ==> FX_SCALE * #[trigger] resid_x(meas, i) == crate::linalg::sum_n(
                pre.ncoeffs_spec(),
                |k: int| cx[k] * samp(&pre, meas, i, k),
            ),
        forall|i: int|
            0 <= i < meas.len() ==> FX_SCALE * #[trigger] resid_y(meas, i) == crate::linalg::sum_n(
                pre.ncoeffs_spec(),
                |k: int| cy[k] * samp(&pre, meas, i, k),
            ),
    ensures
        forall|j: int|
            0 <= j < pre.ncoeffs_spec() ==> (#[trigger] post.coeffs_spec()[j]).x@ == cx[j]
                && post.coeffs_spec()[j].y@ == cy[j],
{
    let mdim = pre.ncoeffs_spec();
    let n = meas.len() as int;
    let rx = |i: int| resid_x(meas, i);
    let ry = |i: int| resid_y(meas, i);
    let rvx = rhs_x(&pre, meas);
    let rvy = rhs_y(&pre, meas);
    assert forall|l: int| 0 <= l < mdim implies #[trigger] rvx[l] == crate::linalg::sum_n(
        n,
        |i: int| samp(&pre, meas, i, l) * rx(i),
    ) by {
        lemma_rhsx_as_sum(&pre, meas, l, n);
        assert((|i: int| samp(&pre, meas, i, l) * rx(i)) =~= (
        |i: int| samp(&pre, meas, i, l) * resid_x(meas, i)));
    }
    assert forall|l: int| 0 <= l < mdim implies #[trigger] rvy[l] == crate::linalg::sum_n(
        n,
        |i: int| samp(&pre, meas, i, l) * ry(i),
    ) by {
        lemma_rhsy_as_sum(&pre, meas, l, n);
        assert((|i: int| samp(&pre, meas, i, l) * ry(i)) =~= (
        |i: int| samp(&pre, meas, i, l) * resid_y(meas, i)));
    }
    assert forall|i: int| 0 <= i < n implies FX_SCALE * #[trigger] rx(i) == crate::linalg::sum_n(
        mdim,
        |k: int| cx[k] * samp(&pre, meas, i, k),
    ) by {
        assert(rx(i) == resid_x(meas, i));
    }
    assert forall|i: int| 0 <= i < n implies FX_SCALE * #[trigger] ry(i) == crate::linalg::sum_n(
        mdim,
        |k: int| cy[k] * samp(&pre, meas, i, k),
    ) by {
        assert(ry(i) == resid_y(meas, i));
    }
    assert forall|j: int| 0 <= j < mdim implies (#[trigger] post.coeffs_spec()[j]).x@ == cx[j]
        && post.coeffs_spec()[j].y@ == cy[j] by {
        lemma_recover_component(&pre, meas, mw, d, cx, rvx, rx, j);
        lemma_recover_component(&pre, meas, mw, d, cy, rvy, ry, j);
        crate::fx::lemma_tdiv_exact(cx[j], d);
        crate::fx::lemma_tdiv_exact(cy[j], d);
        assert(FX_SCALE * dot_n(mw[j], rvx, mdim) == cx[j] * d);
        assert(FX_SCALE * dot_n(mw[j], rvy, mdim) == cy[j] * d);
    }
}

/// Law (singular-input rejection): a successful fit certifies that the Gram
/// matrix has no nonzero kernel vector — with fewer than `M` linearly
/// independent measurements the Gram matrix has one, so `fit` can only have
/// failed. Stated as: any vector the Gram matrix sends to zero is zero.
pub proof fn lemma_fit_gram_nonsingular(
    mw: Seq<Seq<int>>,
    g: Seq<Seq<int>>,
    d: int,
    dim: int,
    v: Seq<int>,
)
    requires
        inverse_witness(mw, g, d, dim),
        v.len() == dim,
        forall|l: int| 0 <= l < dim ==> #[trigger] dot_n(g[l], v, dim) == 0,
    ensures
        forall|j: int| 0 <= j < dim ==> #[trigger] v[j] == 0,
{
    assert forall|j: int| 0 <= j < dim implies #[trigger] v[j] == 0 by {
        let row = mw[j];
        // sum_l mw[j][l] * (g[l] . v) is zero term by term
        let zero_terms = |l: int| row[l] * dot_n(g[l], v, dim);
        assert forall|l: int| 0 <= l < dim implies #[trigger] zero_terms(l) == 0 by {
            assert(dot_n(g[l], v, dim) == 0);
            assert(row[l] * 0 == 0) by (nonlinear_arith);
        }
        crate::linalg::lemma_sum_zero(dim, zero_terms);
        // and by factoring it also equals d * v[j]
        let af = |l: int| row[l];
        let bf = |k: int| v[k];
        let cf = |l: int, k: int| g[l][k];
        crate::linalg::lemma_sum_factor(dim, dim, af, bf, cf);
        let flhs = |l: int| af(l) * crate::linalg::sum_n(dim, |k: int| bf(k) * cf(l, k));
        assert forall|l: int| 0 <= l < dim implies #[trigger] zero_terms(l) == flhs(l) by {
            let grow = g[l];
            lemma_dot_as_sum(grow, v, dim);
            assert((|k: int| bf(k) * cf(l, k)) =~= (|k: int| grow[k] * v[k])) by {
                assert forall|k: int| #[trigger] (v[k] * g[l][k]) == grow[k] * v[k] by {
                    assert(v[k] * g[l][k] == g[l][k] * v[k]) by (nonlinear_arith);
                }
            }
        }
        crate::linalg::lemma_sum_congruence(dim, zero_terms, flhs);
        let frhs = |k: int| bf(k) * crate::linalg::sum_n(dim, |l: int| af(l) * cf(l, k));
        let diag = |k: int| v[k] * (if j == k { d } else { 0 });
        assert forall|k: int| 0 <= k < dim implies #[trigger] frhs(k) == diag(k) by {
            assert((|l: int| af(l) * cf(l, k)) =~= (|l: int| row[l] * g[l][k]));
            lemma_mul_entry_as_sum(row, mw, g, j, k, dim);
            assert(mul_entry(mw, g, j, k, dim) == (if j == k {
                d
            } else {
                0
            }));
            if j != k {
                assert(v[k] * 0 == 0) by (nonlinear_arith);
            }
        }
        crate::linalg::lemma_sum_congruence(dim, frhs, diag);
        assert forall|k: int| 0 <= k < dim && k != j implies #[trigger] diag(k) == 0 by {
            assert(v[k] * 0 == 0) by (nonlinear_arith);
        }
        crate::linalg::lemma_sum_single(dim, diag, j, v[j] * d);
        assert(crate::linalg::sum_n(dim, flhs) == crate::linalg::sum_n(dim, frhs));
        assert(v[j] * d == 0);
        assert(v[j] == 0) by (nonlinear_arith)
            requires
                v[j] * d == 0,
                d != 0,
        ;
    }
}

/// The right-hand sides of the normal equations: for each basis index the
/// exact sums of `sample * residual` over all measurements, x and y.
fn build_rhs<B: DistortionBasis>(
    s: &Vec<Vec<i128>>,
    measurements: &Vec<Centroid>,
    mdim: usize,
    b: &B,
) -> (r: (Vec<i128>, Vec<i128>))
    requires
        b.basis_wf(),
        meas_ok(b, measurements@),
        mdim == b.ncoeffs_spec(),
        measurements@.len() <= 0x10_0000,
        s@.len() == measurements@.len(),
        forall|t: int| 0 <= t < s@.len() ==> (#[trigger] s@[t])@.len() == mdim,
        forall|t: int, j: int|
            0 <= t < s@.len() && 0 <= j < mdim ==> (#[trigger] s@[t]@[j]) == samp(
                b,
                measurements@,
                t,
                j,
            ) && abs_v(s@[t]@[j] as int) <= SAMPLE_LIM,
    ensures
        r.0@.len() == mdim,
        r.1@.len() == mdim,
        forall|j: int|
            0 <= j < mdim ==> (#[trigger] r.0@[j]) == rhs_entry_x(
                b,
                measurements@,
                j,
                measurements@.len() as int,
            ) && abs_v(r.0@[j] as int) <= RHS_ABS_LIM,
        forall|j: int|
            0 <= j < mdim ==> (#[trigger] r.1@[j]) == rhs_entry_y(
                b,
                measurements@,
                j,
                measurements@.len() as int,
            ) && abs_v(r.1@[j] as int) <= RHS_ABS_LIM,
{
    let ghost meas = measurements@;
    let n = measurements.len();
    let mut ax: Vec<i128> = Vec::new();
    let mut ay: Vec<i128> = Vec::new();
    let mut j: usize = 0;
    while j < mdim
        invariant
            meas == measurements@,
            meas_ok(b, meas),
            n == meas.len(),
            n <= 0x10_0000,
            s@.len() == n,
            forall|t: int| 0 <= t < n ==> (#[trigger] s@[t])@.len() == mdim,
            forall|t: int, j2: int|
                0 <= t < n && 0 <= j2 < mdim ==> (#[trigger] s@[t]@[j2]) == samp(b, meas, t, j2)
                    && abs_v(s@[t]@[j2] as int) <= SAMPLE_LIM,
            j <= mdim,
            ax@.len() == j,
            ay@.len() == j,
            forall|j2: int|
                0 <= j2 < j ==> (#[trigger] ax@[j2]) == rhs_entry_x(b, meas, j2, n as int)
                    && abs_v(ax@[j2] as int) <= RHS_ABS_LIM,
            forall|j2: int|
                0 <= j2 < j ==> (#[trigger] ay@[j2]) == rhs_entry_y(b, meas, j2, n as int)
                    && abs_v(ay@[j2] as int) <= RHS_ABS_LIM,
        decreases mdim - j,
    {
        let mut accx: i128 = 0;
        let mut accy: i128 = 0;
        let mut t: usize = 0;
        while t < n
            invariant
                meas == measurements@,
                meas_ok(b, meas),
                n == meas.len(),
                n <= 0x10_0000,
                s@.len() == n,
                forall|t2: int| 0 <= t2 < n ==> (#[trigger] s@[t2])@.len() == mdim,
                forall|t2: int, j2: int|
                    0 <= t2 < n && 0 <= j2 < mdim ==> (#[trigger] s@[t2]@[j2]) == samp(
                        b,
                        meas,
                        t2,
                        j2,
                    ) && abs_v(s@[t2]@[j2] as int) <= SAMPLE_LIM,
                j < mdim,
                t <= n,
                accx == rhs_entry_x(b, meas, j as int, t as int),
                accy == rhs_entry_y(b, meas, j as int, t as int),
                abs_v(accx as int) <= t * 0x2000_0000_0000_0000,
                abs_v(accy as int) <= t * 0x2000_0000_0000_0000,
            decreases n - t,
        {
            let c = measurements[t];
            proof {
                crate::fx::lemma_mul_mag(
                    s@[t as int]@[j as int] as int,
                    c.cog.x@ - c.pos.x@,
                    SAMPLE_LIM as int,
                    2 * POINT_LIM as int,
                );
                crate::fx::lemma_mul_mag(
                    s@[t as int]@[j as int] as int,
                    c.cog.y@ - c.pos.y@,
                    SAMPLE_LIM as int,
                    2 * POINT_LIM as int,
                );
            }
            accx = accx + s[t][j] * (c.cog.x.m - c.pos.x.m);
            accy = accy + s[t][j] * (c.cog.y.m - c.pos.y.m);
            t = t + 1;
        }
        proof {
            assert(n * 0x2000_0000_0000_0000 <= RHS_ABS_LIM) by (nonlinear_arith)
                requires
                    0 <= n <= 0x10_0000,
            ;
        }
        ax.push(accx);
        ay.push(accy);
        j = j + 1;
    }
    (ax, ay)
}

} // verus!
