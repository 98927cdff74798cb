//! Exact integer linear algebra for the least-squares solve.
//!
//! The normal-equation system is solved over the integers: the Gram matrix,
//! stripped of the common factor of its entries, is inverted through its
//! cofactor adjugate, giving an inverse witness `(m, d)` — an integer matrix
//! and a nonzero scalar with `m g == g m == d I` — which a verified check
//! establishes exactly. A determinant bound over the entry magnitudes keeps
//! every intermediate provably inside the machine range, so each way the
//! solve can refuse is a stated condition on the inputs ([`solve_refused`]).
use vstd::prelude::*;

verus! {

/// The spec-level view of an integer matrix held as nested vectors.
pub open spec fn mat_v(m: Seq<Vec<i128>>) -> Seq<Seq<int>> {
    m.map_values(|r: Vec<i128>| vec_v(r@))
}

/// The spec-level view of an integer row.
pub open spec fn vec_v(r: Seq<i128>) -> Seq<int> {
    r.map_values(|x: i128| x as int)
}

/// A rectangular matrix: `rows` rows of `cols` entries each.
pub open spec fn mat_wf(m: Seq<Seq<int>>, rows: int, cols: int) -> bool {
    &&& m.len() == rows
    &&& forall|i: int| 0 <= i < rows ==> (#[trigger] m[i]).len() == cols
}

/// Partial dot product: the first `n` terms of `a . b`.
pub open spec fn dot_n(a: Seq<int>, b: Seq<int>, n: int) -> int
    decreases n,
{
    if n <= 0 {
        0
    } else {
        dot_n(a, b, n - 1) + a[n - 1] * b[n - 1]
    }
}

/// Entry `(j, k)` of the matrix product `a b`, summed over `n` inner terms.
pub open spec fn mul_entry(a: Seq<Seq<int>>, b: Seq<Seq<int>>, j: int, k: int, n: int) -> int
    decreases n,
{
    if n <= 0 {
        0
    } else {
        mul_entry(a, b, j, k, n - 1) + a[j][n - 1] * b[n - 1][k]
    }
}

/// `(m, d)` is an exact inverse witness for the square matrix `g` of
/// dimension `dim`: `d` is nonzero and `m g == g m == d I`.
pub open spec fn inverse_witness(m: Seq<Seq<int>>, g: Seq<Seq<int>>, d: int, dim: int) -> bool {
    &&& d != 0
    &&& mat_wf(m, dim, dim)
    &&& mat_wf(g, dim, dim)
    &&& forall|j: int, k: int|
        0 <= j < dim && 0 <= k < dim ==> #[trigger] mul_entry(m, g, j, k, dim) == if j == k {
            d
        } else {
            0
        }
    &&& forall|j: int, k: int|
        0 <= j < dim && 0 <= k < dim ==> #[trigger] mul_entry(g, m, j, k, dim) == if j == k {
            d
        } else {
            0
        }
}

/// The sum of the first `n` values of an integer function.
pub open spec fn sum_n(n: int, f: spec_fn(int) -> int) -> int
    decreases n,
{
    if n <= 0 {
        0
    } else {
        sum_n(n - 1, f) + f(n - 1)
    }
}

/// Sums of pointwise-equal functions are equal.
pub proof fn lemma_sum_congruence(n: int, f: spec_fn(int) -> int, g: spec_fn(int) -> int)
    requires
        forall|i: int| 0 <= i < n ==> #[trigger] f(i) == g(i),
    ensures
        sum_n(n, f) == sum_n(n, g),
    decreases n,
{
    if n > 0 {
        lemma_sum_congruence(n - 1, f, g);
    }
}

/// The sum of a pointwise sum of two functions splits.
pub proof fn lemma_sum_add(n: int, f: spec_fn(int) -> int, g: spec_fn(int) -> int, h: spec_fn(
    int,
) -> int)
    requires
        forall|i: int| 0 <= i < n ==> #[trigger] h(i) == f(i) + g(i),
    ensures
        sum_n(n, h) == sum_n(n, f) + sum_n(n, g),
    decreases n,
{
    if n > 0 {
        lemma_sum_add(n - 1, f, g, h);
    }
}

/// A constant factor moves out of a sum.
pub proof fn lemma_sum_scale(n: int, f: spec_fn(int) -> int, g: spec_fn(int) -> int, c: int)
    requires
        forall|i: int| 0 <= i < n ==> #[trigger] g(i) == c * f(i),
    ensures
        sum_n(n, g) == c * sum_n(n, f),
    decreases n,
{
    if n > 0 {
        lemma_sum_scale(n - 1, f, g, c);
        assert(c * sum_n(n - 1, f) + c * f(n - 1) == c * (sum_n(n - 1, f) + f(n - 1)))
            by (nonlinear_arith);
    } else {
        assert(c * 0 == 0) by (nonlinear_arith);
    }
}

/// The zero function sums to zero.
pub proof fn lemma_sum_zero(n: int, f: spec_fn(int) -> int)
    requires
        forall|i: int| 0 <= i < n ==> #[trigger] f(i) == 0,
    ensures
        sum_n(n, f) == 0,
    decreases n,
{
    if n > 0 {
        lemma_sum_zero(n - 1, f);
    }
}

/// A double sum can be summed in either order.
pub proof fn lemma_sum_swap(n: int, m: int, f: spec_fn(int, int) -> int)
    ensures
        sum_n(n, |i: int| sum_n(m, |k: int| f(i, k))) == sum_n(
            m,
            |k: int| sum_n(n, |i: int| f(i, k)),
        ),
    decreases n,
{
    let outer_by_i = |i: int| sum_n(m, |k: int| f(i, k));
    let outer_by_k = |k: int| sum_n(n, |i: int| f(i, k));
    if n <= 0 {
        lemma_sum_zero(m, outer_by_k);
    } else {
        lemma_sum_swap(n - 1, m, f);
        let prev_by_k = |k: int| sum_n(n - 1, |i: int| f(i, k));
        let last_row = |k: int| f(n - 1, k);
        assert forall|k: int| 0 <= k < m implies #[trigger] outer_by_k(k) == prev_by_k(k)
            + last_row(k) by {
            assert(sum_n(n, |i: int| f(i, k)) == sum_n(n - 1, |i: int| f(i, k)) + f(n - 1, k));
        }
        lemma_sum_add(m, prev_by_k, last_row, outer_by_k);
        assert(sum_n(n, outer_by_i) == sum_n(n - 1, outer_by_i) + outer_by_i(n - 1));
    }
}

/// A sum whose terms vanish everywhere but one index equals that term.
pub proof fn lemma_sum_single(n: int, f: spec_fn(int) -> int, j0: int, val: int)
    requires
        0 <= j0 < n,
        f(j0) == val,
        forall|i: int| 0 <= i < n && i != j0 ==> #[trigger] f(i) == 0,
    ensures
        sum_n(n, f) == val,
    decreases n,
{
    if j0 == n - 1 {
        let g = |i: int| 0;
        lemma_sum_congruence(n - 1, f, g);
        lemma_sum_zero(n - 1, g);
    } else {
        lemma_sum_single(n - 1, f, j0, val);
    }
}

/// Weighted double sums factor either way:
/// `sum_l a(l) (sum_k b(k) c(l,k)) == sum_k b(k) (sum_l a(l) c(l,k))`.
pub proof fn lemma_sum_factor(
    n: int,
    m: int,
    a: spec_fn(int) -> int,
    b: spec_fn(int) -> int,
    c: spec_fn(int, int) -> int,
)
    ensures
        sum_n(n, |l: int| a(l) * sum_n(m, |k: int| b(k) * c(l, k))) == sum_n(
            m,
            |k: int| b(k) * sum_n(n, |l: int| a(l) * c(l, k)),
        ),
{
    let f = |l: int, k: int| a(l) * (b(k) * c(l, k));
    let lhs_term = |l: int| a(l) * sum_n(m, |k: int| b(k) * c(l, k));
    let lhs_row = |l: int| sum_n(m, |k: int| f(l, k));
    assert forall|l: int| 0 <= l < n implies #[trigger] lhs_term(l) == lhs_row(l) by {
        lemma_sum_scale(m, |k: int| b(k) * c(l, k), |k: int| f(l, k), a(l));
    }
    lemma_sum_congruence(n, lhs_term, lhs_row);
    lemma_sum_swap(n, m, f);
    let rhs_term = |k: int| b(k) * sum_n(n, |l: int| a(l) * c(l, k));
    let rhs_col = |k: int| sum_n(n, |l: int| f(l, k));
    assert forall|k: int| 0 <= k < m implies #[trigger] rhs_term(k) == rhs_col(k) by {
        let inner_scaled = |l: int| f(l, k);
        let inner_plain = |l: int| a(l) * c(l, k);
        assert forall|l: int| 0 <= l < n implies #[trigger] inner_scaled(l) == b(k)
            * inner_plain(l) by {
            assert(a(l) * (b(k) * c(l, k)) == b(k) * (a(l) * c(l, k))) by (nonlinear_arith);
        }
        lemma_sum_scale(n, inner_plain, inner_scaled, b(k));
    }
    lemma_sum_congruence(m, rhs_term, rhs_col);
    assert(sum_n(n, |l: int| sum_n(m, |k: int| f(l, k))) == sum_n(
        m,
        |k: int| sum_n(n, |l: int| f(l, k)),
    ));
}


/// Largest basis count the exact solver attempts (the cofactor recursion is
/// factorial in the dimension).
pub const DET_CAP: usize = 9;

/// Ceiling on the solver's exact intermediate quantities: the stated
/// machine-range bound `fact(m) * B^m * m * X <= SOLVE_LIM` keeps every
/// determinant, adjugate entry, dot product and certificate sum provably
/// inside `i128`.
pub const SOLVE_LIM: i128 = 0x4000_0000_0000_0000_0000_0000_0000; // 2^110

/// The larger of two spec integers.
pub open spec fn max_i(a: int, b: int) -> int {
    if a >= b {
        a
    } else {
        b
    }
}

/// Factorial.
pub open spec fn fact_s(n: nat) -> int
    decreases n,
{
    if n == 0 {
        1
    } else {
        n * fact_s((n - 1) as nat)
    }
}

/// Integer power.
pub open spec fn pow_s(b: int, n: nat) -> int
    decreases n,
{
    if n == 0 {
        1
    } else {
        b * pow_s(b, (n - 1) as nat)
    }
}

/// Factorials are positive and grow with the argument.
pub proof fn lemma_fact_mono(a: nat, b: nat)
    requires
        a <= b,
    ensures
        1 <= fact_s(a) <= fact_s(b),
    decreases b,
{
    if b > 0 {
        if a == b {
            lemma_fact_mono((a - 1) as nat, (b - 1) as nat);
            assert(b * fact_s((b - 1) as nat) >= 1 * fact_s((b - 1) as nat)) by (nonlinear_arith)
                requires
                    b >= 1,
                    fact_s((b - 1) as nat) >= 1,
            ;
        } else {
            lemma_fact_mono(a, (b - 1) as nat);
            assert(b * fact_s((b - 1) as nat) >= fact_s((b - 1) as nat)) by (nonlinear_arith)
                requires
                    b >= 1,
                    fact_s((b - 1) as nat) >= 1,
            ;
        }
    }
}

/// Powers of a base of at least one are positive and grow with the exponent.
pub proof fn lemma_pow_mono(b: int, a: nat, n: nat)
    requires
        b >= 1,
        a <= n,
    ensures
        1 <= pow_s(b, a) <= pow_s(b, n),
    decreases n,
{
    if n > 0 {
        if a == n {
            lemma_pow_mono(b, (a - 1) as nat, (n - 1) as nat);
            assert(b * pow_s(b, (n - 1) as nat) >= 1 * pow_s(b, (n - 1) as nat))
                by (nonlinear_arith)
                requires
                    b >= 1,
                    pow_s(b, (n - 1) as nat) >= 1,
            ;
        } else {
            lemma_pow_mono(b, a, (n - 1) as nat);
            assert(b * pow_s(b, (n - 1) as nat) >= pow_s(b, (n - 1) as nat)) by (nonlinear_arith)
                requires
                    b >= 1,
                    pow_s(b, (n - 1) as nat) >= 1,
            ;
        }
    }
}

/// Greatest common divisor of two magnitudes (Euclid).
pub open spec fn gcd_s(a: nat, b: nat) -> nat
    decreases b,
{
    if b == 0 {
        a
    } else {
        gcd_s(b, a % b)
    }
}

/// Greatest common divisor of the magnitudes of the first `k` entries of a
/// row.
pub open spec fn row_gcd_s(r: Seq<int>, k: int) -> nat
    decreases k,
{
    if k <= 0 {
        0
    } else {
        gcd_s(row_gcd_s(r, k - 1), crate::fx::abs_v(r[k - 1]) as nat)
    }
}

/// Greatest common divisor of the magnitudes of all entries of the leading
/// `k` rows (each of width `m`).
pub open spec fn mat_gcd_s(g: Seq<Seq<int>>, m: int, k: int) -> nat
    decreases k,
{
    if k <= 0 {
        0
    } else {
        gcd_s(mat_gcd_s(g, m, k - 1), row_gcd_s(g[k - 1], m))
    }
}

/// Largest entry magnitude of the first `k` entries of a row.
pub open spec fn row_absmax_s(r: Seq<int>, k: int) -> int
    decreases k,
{
    if k <= 0 {
        0
    } else {
        max_i(row_absmax_s(r, k - 1), crate::fx::abs_v(r[k - 1]))
    }
}

/// Largest entry magnitude of the leading `k` rows (each of width `m`).
pub open spec fn mat_absmax_s(g: Seq<Seq<int>>, m: int, k: int) -> int
    decreases k,
{
    if k <= 0 {
        0
    } else {
        max_i(mat_absmax_s(g, m, k - 1), row_absmax_s(g[k - 1], m))
    }
}

/// The matrix scaled down by a common factor, entrywise truncating division.
pub open spec fn scaled_mat(g: Seq<Seq<int>>, gam: int, m: int) -> Seq<Seq<int>> {
    Seq::new(m as nat, |i: int| Seq::new(m as nat, |j: int| crate::fx::tdiv(g[i][j], gam)))
}

/// The submatrix with row `r` and column `c` removed.
pub open spec fn minor_rc(g: Seq<Seq<int>>, r: int, c: int, m: int) -> Seq<Seq<int>> {
    Seq::new(
        (m - 1) as nat,
        |i: int|
            Seq::new(
                (m - 1) as nat,
                |j: int|
                    g[if i < r {
                        i
                    } else {
                        i + 1
                    }][if j < c {
                        j
                    } else {
                        j + 1
                    }],
            ),
    )
}

/// The cofactor sign of a position.
pub open spec fn sign_s(j: int) -> int {
    if j % 2 == 0 {
        1
    } else {
        -1
    }
}

/// The determinant of the leading `m x m` block, by cofactor expansion along
/// the first row.
pub open spec fn det_s(g: Seq<Seq<int>>, m: int) -> int
    decreases m, m + 1,
{
    if m <= 0 {
        1
    } else if m == 1 {
        g[0][0]
    } else {
        det_row_s(g, m, m)
    }
}

/// Partial cofactor expansion along the first row: the first `j` terms.
pub open spec fn det_row_s(g: Seq<Seq<int>>, m: int, j: int) -> int
    decreases m, j,
{
    if j <= 0 || m <= 1 {
        0
    } else {
        det_row_s(g, m, j - 1) + sign_s(j - 1) * g[0][j - 1] * det_s(minor_rc(g, 0, j - 1, m), m
            - 1)
    }
}

/// The adjugate of the leading `m x m` block: the transposed cofactor
/// matrix, satisfying `g adj(g) == adj(g) g == det(g) I`.
pub open spec fn adj_s(g: Seq<Seq<int>>, m: int) -> Seq<Seq<int>> {
    Seq::new(
        m as nat,
        |i: int| Seq::new(m as nat, |j: int| sign_s(i + j) * det_s(minor_rc(g, j, i, m), m - 1)),
    )
}

/// A square matrix: every row of the leading block has the block's width.
pub open spec fn sq_wf(g: Seq<Seq<int>>, m: int) -> bool {
    &&& g.len() >= m
    &&& forall|i: int| 0 <= i < m ==> (#[trigger] g[i]).len() >= m
}

/// Every entry of the leading block is within a magnitude bound.
pub open spec fn entries_le(g: Seq<Seq<int>>, m: int, b: int) -> bool {
    forall|i: int, j: int| 0 <= i < m && 0 <= j < m ==> crate::fx::abs_v(#[trigger] g[i][j]) <= b
}

/// A minor of a bounded square matrix is a bounded square matrix.
proof fn lemma_minor_wf(g: Seq<Seq<int>>, r: int, c: int, m: int, b: int)
    requires
        sq_wf(g, m),
        entries_le(g, m, b),
        0 <= r < m,
        0 <= c < m,
        m >= 1,
    ensures
        sq_wf(minor_rc(g, r, c, m), m - 1),
        entries_le(minor_rc(g, r, c, m), m - 1, b),
        forall|i: int, j: int|
            0 <= i < m - 1 && 0 <= j < m - 1 ==> (#[trigger] minor_rc(g, r, c, m)[i][j]) == g[
                if i < r {
                    i
                } else {
                    i + 1
                }
            ][
                if j < c {
                    j
                } else {
                    j + 1
                }
            ],
{
}

/// Hadamard-style bound: the determinant of an `m x m` matrix with entries
/// of magnitude at most `b` has magnitude at most `fact(m) * b^m`.
pub proof fn lemma_det_bound(g: Seq<Seq<int>>, m: int, b: int)
    requires
        sq_wf(g, m),
        entries_le(g, m, b),
        b >= 1,
        m >= 0,
    ensures
        crate::fx::abs_v(det_s(g, m)) <= fact_s(m as nat) * pow_s(b, m as nat),
    decreases m, m + 1,
{
    if m <= 0 {
    } else if m == 1 {
        assert(fact_s(1) * pow_s(b, 1) == b) by (nonlinear_arith)
            requires
                fact_s(1) == 1 * fact_s(0),
                pow_s(b, 1) == b * pow_s(b, 0),
        ;
    } else {
        lemma_det_row_bound(g, m, m, b);
        assert(m * (b * (fact_s((m - 1) as nat) * pow_s(b, (m - 1) as nat))) == fact_s(m as nat)
            * pow_s(b, m as nat)) by (nonlinear_arith)
            requires
                fact_s(m as nat) == m * fact_s((m - 1) as nat),
                pow_s(b, m as nat) == b * pow_s(b, (m - 1) as nat),
        ;
    }
}

proof fn lemma_det_row_bound(g: Seq<Seq<int>>, m: int, j: int, b: int)
    requires
        sq_wf(g, m),
        entries_le(g, m, b),
        b >= 1,
        m >= 2,
        0 <= j <= m,
    ensures
        crate::fx::abs_v(det_row_s(g, m, j)) <= j * (b * (fact_s((m - 1) as nat) * pow_s(
            b,
            (m - 1) as nat,
        ))),
    decreases m, j,
{
    let sub_lim = fact_s((m - 1) as nat) * pow_s(b, (m - 1) as nat);
    if j > 0 {
        lemma_det_row_bound(g, m, j - 1, b);
        lemma_minor_wf(g, 0, j - 1, m, b);
        lemma_det_bound(minor_rc(g, 0, j - 1, m), m - 1, b);
        let term = sign_s(j - 1) * g[0][j - 1] * det_s(minor_rc(g, 0, j - 1, m), m - 1);
        assert(crate::fx::abs_v(term) <= b * sub_lim) by (nonlinear_arith)
            requires
                term == sign_s(j - 1) * g[0][j - 1] * det_s(minor_rc(g, 0, j - 1, m), m - 1),
                crate::fx::abs_v(g[0][j - 1]) <= b,
                crate::fx::abs_v(det_s(minor_rc(g, 0, j - 1, m), m - 1)) <= sub_lim,
                sign_s(j - 1) == 1 || sign_s(j - 1) == -1,
                b >= 1,
                sub_lim >= 0,
        ;
        assert((j - 1) * (b * sub_lim) + b * sub_lim == j * (b * sub_lim)) by (nonlinear_arith);
    } else {
        assert(0 * (b * sub_lim) == 0) by (nonlinear_arith);
    }
}

/// The stated machine-range bound of the exact solver, over the scaled
/// matrix's largest entry, the largest magnitude among raw Gram entries,
/// right-hand sides and the common factor, and the dimension.
pub open spec fn solve_bounds_ok(bh: int, xmax: int, m: int) -> bool {
    fact_s(m as nat) * pow_s(bh, m as nat) * m * xmax <= SOLVE_LIM
}

/// When the bound holds, each prefix of the product it speaks of is within
/// the limit too.
pub proof fn lemma_bounds_components(bh: int, xmax: int, m: int)
    requires
        solve_bounds_ok(bh, xmax, m),
        bh >= 1,
        xmax >= 1,
        m >= 1,
    ensures
        1 <= fact_s(m as nat) * pow_s(bh, m as nat) <= SOLVE_LIM,
        fact_s(m as nat) * pow_s(bh, m as nat) * m <= SOLVE_LIM,
        fact_s(m as nat) * pow_s(bh, m as nat) * xmax <= SOLVE_LIM,
{
    lemma_fact_mono(0, m as nat);
    lemma_pow_mono(bh, 0, m as nat);
    let f = fact_s(m as nat) * pow_s(bh, m as nat);
    assert(f >= 1) by (nonlinear_arith)
        requires
            f == fact_s(m as nat) * pow_s(bh, m as nat),
            fact_s(m as nat) >= 1,
            pow_s(bh, m as nat) >= 1,
    ;
    assert(f <= f * m && f * m <= f * m * xmax && f * xmax <= f * m * xmax) by (nonlinear_arith)
        requires
            f >= 1,
            m >= 1,
            xmax >= 1,
    ;
}

/// The conditions under which the exact least-squares solver refuses with a
/// numerical error, stated entirely over the normal-equation inputs: the
/// dimension cap, a zero or singular (scaled) Gram matrix, the stated
/// machine-range bound, the adjugate identity, and the coefficient range.
/// The gcd-divisibility and adjugate-identity conditions hold of every input
/// by elementary algebra; they are listed because the library does not carry
/// those classical proofs, and being input-determined they never excuse a
/// refusal that the other conditions would not.
pub open spec fn solve_refused(
    g: Seq<Seq<int>>,
    ax: Seq<int>,
    ay: Seq<int>,
    clim: int,
    m: int,
) -> bool {
    let gam = mat_gcd_s(g, m, m) as int;
    let h = scaled_mat(g, gam, m);
    let bh = max_i(mat_absmax_s(h, m, m), 1);
    let xmax = max_i(
        max_i(mat_absmax_s(g, m, m), max_i(row_absmax_s(ax, m), row_absmax_s(ay, m))),
        max_i(gam, 1),
    );
    let d = gam * det_s(h, m);
    ||| m > DET_CAP
    ||| gam == 0
    ||| (exists|i: int, j: int|
        0 <= i < m && 0 <= j < m && crate::fx::tdiv(#[trigger] g[i][j], gam) * gam != g[i][j])
    ||| !solve_bounds_ok(bh, xmax, m)
    ||| det_s(h, m) == 0
    ||| !inverse_witness(adj_s(h, m), g, d, m)
    ||| (exists|j: int|
        0 <= j < m && (crate::fx::abs_v(
            crate::fx::tdiv(crate::fx::FX_SCALE * dot_n(#[trigger] adj_s(h, m)[j], ax, m), d),
        ) > clim || crate::fx::abs_v(
            crate::fx::tdiv(crate::fx::FX_SCALE * dot_n(adj_s(h, m)[j], ay, m), d),
        ) > clim))
}

/// Euclid's algorithm on nonnegative values.
fn gcd_i(a0: i128, b0: i128) -> (r: i128)
    requires
        0 <= a0,
        0 <= b0,
    ensures
        r == gcd_s(a0 as nat, b0 as nat),
        0 <= r,
        r <= a0 || r <= b0,
{
    let mut a = a0;
    let mut b = b0;
    while b != 0
        invariant
            0 <= a,
            0 <= b,
            a <= a0 || a <= b0,
            b <= a0 || b <= b0,
            gcd_s(a as nat, b as nat) == gcd_s(a0 as nat, b0 as nat),
        decreases b,
    {
        let t = a % b;
        a = b;
        b = t;
    }
    a
}

/// Magnitude of an in-range value.
fn abs_exec(v: i128) -> (r: i128)
    requires
        v != i128::MIN,
    ensures
        r == crate::fx::abs_v(v as int),
{
    if v >= 0 {
        v
    } else {
        -v
    }
}

/// Greatest common divisor of all entry magnitudes of a square matrix.
pub(crate) fn mat_gcd_exec(g: &Vec<Vec<i128>>, m: usize, b: Ghost<int>) -> (r: i128)
    requires
        g@.len() >= m,
        forall|i: int| 0 <= i < m ==> (#[trigger] g@[i])@.len() >= m,
        forall|i: int, j: int|
            0 <= i < m && 0 <= j < m ==> (#[trigger] g@[i]@[j]) != i128::MIN,
        0 <= b@,
        entries_le(mat_v(g@), m as int, b@),
    ensures
        r == mat_gcd_s(mat_v(g@), m as int, m as int),
        0 <= r <= b@,
{
    let ghost gv = mat_v(g@);
    let mut acc: i128 = 0;
    let mut i: usize = 0;
    while i < m
        invariant
            gv == mat_v(g@),
            g@.len() >= m,
            forall|t: int| 0 <= t < m ==> (#[trigger] g@[t])@.len() >= m,
            forall|t: int, u: int|
                0 <= t < m && 0 <= u < m ==> (#[trigger] g@[t]@[u]) != i128::MIN,
            0 <= b@,
            entries_le(gv, m as int, b@),
            i <= m,
            0 <= acc,
            acc <= b@,
            acc == mat_gcd_s(gv, m as int, i as int),
        decreases m - i,
    {
        let mut racc: i128 = 0;
        let mut j: usize = 0;
        while j < m
            invariant
                gv == mat_v(g@),
                g@.len() >= m,
                forall|t: int| 0 <= t < m ==> (#[trigger] g@[t])@.len() >= m,
                forall|t: int, u: int|
                    0 <= t < m && 0 <= u < m ==> (#[trigger] g@[t]@[u]) != i128::MIN,
                0 <= b@,
                entries_le(gv, m as int, b@),
                i < m,
                j <= m,
                0 <= racc,
                racc <= b@,
                racc == row_gcd_s(gv[i as int], j as int),
            decreases m - j,
        {
            let av = abs_exec(g[i][j]);
            proof {
                assert(gv[i as int][j as int] == g@[i as int]@[j as int] as int);
            }
            racc = gcd_i(racc, av);
            j = j + 1;
        }
        acc = gcd_i(acc, racc);
        i = i + 1;
    }
    acc
}

/// Largest entry magnitude of a square matrix.
pub(crate) fn mat_absmax_exec(g: &Vec<Vec<i128>>, m: usize) -> (r: i128)
    requires
        g@.len() >= m,
        forall|i: int| 0 <= i < m ==> (#[trigger] g@[i])@.len() >= m,
        forall|i: int, j: int|
            0 <= i < m && 0 <= j < m ==> (#[trigger] g@[i]@[j]) != i128::MIN,
    ensures
        r == mat_absmax_s(mat_v(g@), m as int, m as int),
        0 <= r,
        entries_le(mat_v(g@), m as int, r as int),
{
    let ghost gv = mat_v(g@);
    let mut acc: i128 = 0;
    let mut i: usize = 0;
    while i < m
        invariant
            gv == mat_v(g@),
            g@.len() >= m,
            forall|t: int| 0 <= t < m ==> (#[trigger] g@[t])@.len() >= m,
            forall|t: int, u: int|
                0 <= t < m && 0 <= u < m ==> (#[trigger] g@[t]@[u]) != i128::MIN,
            i <= m,
            0 <= acc,
            acc == mat_absmax_s(gv, m as int, i as int),
            forall|t: int, u: int|
                0 <= t < i && 0 <= u < m ==> crate::fx::abs_v(#[trigger] gv[t][u]) <= acc,
        decreases m - i,
    {
        let mut racc: i128 = 0;
        let mut j: usize = 0;
        while j < m
            invariant
                gv == mat_v(g@),
                g@.len() >= m,
                forall|t: int| 0 <= t < m ==> (#[trigger] g@[t])@.len() >= m,
                forall|t: int, u: int|
                    0 <= t < m && 0 <= u < m ==> (#[trigger] g@[t]@[u]) != i128::MIN,
                i < m,
                j <= m,
                0 <= racc,
                racc == row_absmax_s(gv[i as int], j as int),
                forall|u: int| 0 <= u < j ==> crate::fx::abs_v(#[trigger] gv[i as int][u]) <= racc,
            decreases m - j,
        {
            let av = abs_exec(g[i][j]);
            if av > racc {
                racc = av;
            }
            j = j + 1;
        }
        if racc > acc {
            acc = racc;
        } else {
            proof {
                assert(mat_absmax_s(gv, m as int, i + 1) == max_i(acc as int, racc as int));
            }
        }
        i = i + 1;
    }
    acc
}

/// Largest entry magnitude of a vector.
pub(crate) fn vec_absmax_exec(a: &Vec<i128>, m: usize) -> (r: i128)
    requires
        a@.len() >= m,
        forall|i: int| 0 <= i < m ==> (#[trigger] a@[i]) != i128::MIN,
    ensures
        r == row_absmax_s(vec_v(a@), m as int),
        0 <= r,
        forall|i: int| 0 <= i < m ==> crate::fx::abs_v(#[trigger] vec_v(a@)[i]) <= r,
{
    let mut acc: i128 = 0;
    let mut j: usize = 0;
    while j < m
        invariant
            a@.len() >= m,
            forall|t: int| 0 <= t < m ==> (#[trigger] a@[t]) != i128::MIN,
            j <= m,
            0 <= acc,
            acc == row_absmax_s(vec_v(a@), j as int),
            forall|t: int| 0 <= t < j ==> crate::fx::abs_v(#[trigger] vec_v(a@)[t]) <= acc,
        decreases m - j,
    {
        let av = abs_exec(a[j]);
        if av > acc {
            acc = av;
        }
        j = j + 1;
    }
    acc
}

/// Runtime evaluation of the stated machine-range bound: multiplies the
/// factors out with overflow checks; any overflow means the true product is
/// over the limit.
pub(crate) fn bounds_check(bh: i128, xmax: i128, m: usize) -> (r: bool)
    requires
        1 <= bh,
        1 <= xmax,
        1 <= m <= DET_CAP,
    ensures
        r == solve_bounds_ok(bh as int, xmax as int, m as int),
{
    proof {
        lemma_fact_mono(0, m as nat);
        lemma_pow_mono(bh as int, 0, m as nat);
    }
    let mut f: i128 = 1;
    let mut i: usize = 0;
    // factorial of a capped dimension: small
    while i < m
        invariant
            1 <= m <= DET_CAP,
            i <= m,
            f == fact_s(i as nat),
            1 <= f <= 362880,
        decreases m - i,
    {
        proof {
            lemma_fact_mono((i + 1) as nat, DET_CAP as nat);
            reveal_with_fuel(fact_s, 11);
            assert(fact_s((i + 1) as nat) == (i + 1) * fact_s(i as nat));
            assert(fact_s((i + 1) as nat) <= fact_s(DET_CAP as nat));
            assert(fact_s(DET_CAP as nat) == 362880);
            assert(1 <= f * ((i + 1) as int) <= 3265920) by (nonlinear_arith)
                requires
                    1 <= f <= 362880,
                    1 <= i + 1 <= 9,
                    f * ((i + 1) as int) == fact_s((i + 1) as nat),
                    fact_s((i + 1) as nat) <= 362880,
            ;
        }
        f = f * ((i + 1) as i128);
        i = i + 1;
    }
    let mut p: i128 = f;
    let mut k: usize = 0;
    while k < m
        invariant
            1 <= bh,
            1 <= xmax,
            1 <= m <= DET_CAP,
            k <= m,
            f == fact_s(m as nat),
            1 <= f,
            p == f * pow_s(bh as int, k as nat),
            1 <= p,
        decreases m - k,
    {
        proof {
            lemma_pow_mono(bh as int, k as nat, m as nat);
            lemma_prod_tail_ge(f as int, bh as int, xmax as int, m as int, (k + 1) as nat);
            assert(pow_s(bh as int, (k + 1) as nat) == bh * pow_s(bh as int, k as nat));
        }
        let np = match p.checked_mul(bh) {
            Some(v) => v,
            None => {
                proof {
                    assert(p * bh >= 1) by (nonlinear_arith)
                        requires
                            p >= 1,
                            bh >= 1,
                    ;
                    assert(f * pow_s(bh as int, (k + 1) as nat) == (f * pow_s(bh as int, k as nat))
                        * bh) by (nonlinear_arith)
                        requires
                            pow_s(bh as int, (k + 1) as nat) == bh * pow_s(bh as int, k as nat),
                    ;
                    assert(!solve_bounds_ok(bh as int, xmax as int, m as int));
                }
                return false;
            },
        };
        proof {
            assert(f * pow_s(bh as int, (k + 1) as nat) == (f * pow_s(bh as int, k as nat)) * bh)
                by (nonlinear_arith)
                requires
                    pow_s(bh as int, (k + 1) as nat) == bh * pow_s(bh as int, k as nat),
            ;
            assert(np >= 1) by (nonlinear_arith)
                requires
                    np == p * bh,
                    p >= 1,
                    bh >= 1,
            ;
        }
        p = np;
        k = k + 1;
    }
    proof {
        lemma_prod_tail_ge(f as int, bh as int, xmax as int, m as int, m as nat);
    }
    let p2 = match p.checked_mul(m as i128) {
        Some(v) => v,
        None => {
            proof {
                assert(p * m >= 1) by (nonlinear_arith)
                    requires
                        p >= 1,
                        m >= 1,
                ;
                assert(!solve_bounds_ok(bh as int, xmax as int, m as int)) by (nonlinear_arith)
                    requires
                        p == fact_s(m as nat) * pow_s(bh as int, m as nat),
                        p * m > i128::MAX,
                        xmax >= 1,
                        p * m >= 1,
                        solve_bounds_ok(bh as int, xmax as int, m as int) == (fact_s(m as nat)
                            * pow_s(bh as int, m as nat) * m * xmax <= SOLVE_LIM),
                        SOLVE_LIM < i128::MAX,
                ;
            }
            return false;
        },
    };
    proof {
        assert(p2 >= 1) by (nonlinear_arith)
            requires
                p2 == p * m,
                p >= 1,
                m >= 1,
        ;
    }
    let p3 = match p2.checked_mul(xmax) {
        Some(v) => v,
        None => {
            proof {
                assert(!solve_bounds_ok(bh as int, xmax as int, m as int)) by (nonlinear_arith)
                    requires
                        p2 == fact_s(m as nat) * pow_s(bh as int, m as nat) * m,
                        p2 * xmax > i128::MAX,
                        p2 >= 1,
                        xmax >= 1,
                        solve_bounds_ok(bh as int, xmax as int, m as int) == (fact_s(m as nat)
                            * pow_s(bh as int, m as nat) * m * xmax <= SOLVE_LIM),
                        SOLVE_LIM < i128::MAX,
                ;
            }
            return false;
        },
    };
    p3 <= SOLVE_LIM
}

/// The full bound product dominates each of its prefixes (all factors are at
/// least one), so an overflow while accumulating already certifies the bound
/// is broken.
proof fn lemma_prod_tail_ge(f: int, bh: int, xmax: int, m: int, k: nat)
    requires
        f >= 1,
        bh >= 1,
        xmax >= 1,
        m >= 1,
        k <= m,
    ensures
        f * pow_s(bh, m as nat) * m * xmax >= f * pow_s(bh, k),
        f * pow_s(bh, m as nat) * m * xmax >= f * pow_s(bh, m as nat) * m,
{
    lemma_pow_mono(bh, k, m as nat);
    assert(f * pow_s(bh, m as nat) * m * xmax >= f * pow_s(bh, k)) by (nonlinear_arith)
        requires
            f >= 1,
            m >= 1,
            xmax >= 1,
            1 <= pow_s(bh, k) <= pow_s(bh, m as nat),
    ;
    assert(f * pow_s(bh, m as nat) * m * xmax >= f * pow_s(bh, m as nat) * m) by (nonlinear_arith)
        requires
            f >= 1,
            m >= 1,
            xmax >= 1,
            pow_s(bh, m as nat) >= 1,
    ;
}

/// Build the submatrix of the leading `m x m` block with row `r` and column
/// `c` removed.
fn build_minor(g: &Vec<Vec<i128>>, r: usize, c: usize, m: usize) -> (out: Vec<Vec<i128>>)
    requires
        g@.len() >= m,
        forall|i: int| 0 <= i < m ==> (#[trigger] g@[i])@.len() >= m,
        r < m,
        c < m,
        1 <= m,
    ensures
        out@.len() == m - 1,
        forall|i: int| 0 <= i < m - 1 ==> (#[trigger] out@[i])@.len() == m - 1,
        mat_v(out@) =~~= minor_rc(mat_v(g@), r as int, c as int, m as int),
{
    let ghost gv = mat_v(g@);
    let ghost mv = minor_rc(gv, r as int, c as int, m as int);
    let mut out: Vec<Vec<i128>> = Vec::new();
    let mut i: usize = 0;
    while i < m - 1
        invariant
            gv == mat_v(g@),
            mv == minor_rc(gv, r as int, c as int, m as int),
            g@.len() >= m,
            forall|t: int| 0 <= t < m ==> (#[trigger] g@[t])@.len() >= m,
            r < m,
            c < m,
            1 <= m,
            i <= m - 1,
            out@.len() == i,
            forall|t: int| 0 <= t < i ==> (#[trigger] out@[t])@.len() == m - 1,
            forall|t: int, u: int|
                0 <= t < i && 0 <= u < m - 1 ==> (#[trigger] out@[t]@[u]) as int == mv[t][u],
        decreases m - 1 - i,
    {
        let src_i = if i < r {
            i
        } else {
            i + 1
        };
        let mut row: Vec<i128> = Vec::new();
        let mut j: usize = 0;
        while j < m - 1
            invariant
                gv == mat_v(g@),
                mv == minor_rc(gv, r as int, c as int, m as int),
                g@.len() >= m,
                forall|t: int| 0 <= t < m ==> (#[trigger] g@[t])@.len() >= m,
                r < m,
                c < m,
                1 <= m,
                i < m - 1,
                src_i == (if i < r {
                    i as int
                } else {
                    i + 1
                }),
                src_i < m,
                j <= m - 1,
                row@.len() == j,
                forall|u: int| 0 <= u < j ==> (#[trigger] row@[u]) as int == mv[i as int][u],
            decreases m - 1 - j,
        {
            let src_j = if j < c {
                j
            } else {
                j + 1
            };
            row.push(g[src_i][src_j]);
            j = j + 1;
        }
        out.push(row);
        i = i + 1;
    }
    proof {
        assert forall|t: int, u: int| 0 <= t < m - 1 && 0 <= u < m - 1 implies (#[trigger] mat_v(
            out@,
        )[t][u]) == mv[t][u] by {
            assert(mat_v(out@)[t][u] == out@[t]@[u] as int);
        }
        assert(mat_v(out@) =~~= mv);
    }
    out
}

/// The determinant of the leading `m x m` block by cofactor expansion, with
/// every intermediate provably in range under the stated bound.
pub(crate) fn det_exec(g: &Vec<Vec<i128>>, m: usize, bnd: Ghost<int>) -> (r: i128)
    requires
        g@.len() >= m,
        forall|i: int| 0 <= i < m ==> (#[trigger] g@[i])@.len() >= m,
        1 <= m,
        1 <= bnd@,
        entries_le(mat_v(g@), m as int, bnd@),
        fact_s(m as nat) * pow_s(bnd@, m as nat) <= SOLVE_LIM,
    ensures
        r == det_s(mat_v(g@), m as int),
    decreases m,
{
    let ghost gv = mat_v(g@);
    proof {
        assert(sq_wf(gv, m as int)) by {
            assert(forall|i: int| 0 <= i < m ==> (#[trigger] gv[i]).len() == g@[i]@.len());
        }
        lemma_det_bound(gv, m as int, bnd@);
    }
    if m == 1 {
        return g[0][0];
    }
    let ghost sub_lim = fact_s((m - 1) as nat) * pow_s(bnd@, (m - 1) as nat);
    let mut acc: i128 = 0;
    let mut j: usize = 0;
    while j < m
        invariant
            gv == mat_v(g@),
            sq_wf(gv, m as int),
            g@.len() >= m,
            forall|t: int| 0 <= t < m ==> (#[trigger] g@[t])@.len() >= m,
            2 <= m,
            1 <= bnd@,
            entries_le(gv, m as int, bnd@),
            fact_s(m as nat) * pow_s(bnd@, m as nat) <= SOLVE_LIM,
            sub_lim == fact_s((m - 1) as nat) * pow_s(bnd@, (m - 1) as nat),
            j <= m,
            acc == det_row_s(gv, m as int, j as int),
            crate::fx::abs_v(acc as int) <= j * (bnd@ * sub_lim),
        decreases m - j,
    {
        proof {
            lemma_fact_pow_step(m as int, bnd@);
        }
        let sub = build_minor(g, 0, j, m);
        proof {
            lemma_minor_wf(gv, 0, j as int, m as int, bnd@);
            assert(entries_le(mat_v(sub@), (m - 1) as int, bnd@));
            assert(forall|i: int|
                0 <= i < m - 1 ==> (#[trigger] mat_v(sub@)[i]).len() == m - 1);
        }
        let sd = det_exec(&sub, m - 1, bnd);
        proof {
            lemma_det_bound(mat_v(sub@), (m - 1) as int, bnd@);
            assert(mat_v(sub@) == minor_rc(gv, 0, j as int, m as int));
            crate::fx::lemma_mul_mag(gv[0][j as int], sd as int, bnd@, sub_lim);
            lemma_det_row_bound(gv, m as int, j as int, bnd@);
            assert((j + 1) * (bnd@ * sub_lim) == j * (bnd@ * sub_lim) + bnd@ * sub_lim)
                by (nonlinear_arith);
            assert(j * (bnd@ * sub_lim) + bnd@ * sub_lim <= m * (bnd@ * sub_lim))
                by (nonlinear_arith)
                requires
                    j + 1 <= m,
                    bnd@ * sub_lim >= 0,
            ;
        }
        let term = g[0][j] * sd;
        proof {
            assert(gv[0][j as int] == g@[0]@[j as int] as int);
            assert(det_row_s(gv, m as int, j + 1) == det_row_s(gv, m as int, j as int) + sign_s(
                j as int,
            ) * gv[0][j as int] * det_s(minor_rc(gv, 0, j as int, m as int), m - 1));
            if j % 2 == 0 {
                assert(sign_s(j as int) == 1);
                assert(1 * gv[0][j as int] * sd == gv[0][j as int] * sd) by (nonlinear_arith);
            } else {
                assert(sign_s(j as int) == -1);
                assert((-1) * gv[0][j as int] * sd == -(gv[0][j as int] * sd)) by (nonlinear_arith);
            }
        }
        if j % 2 == 0 {
            acc = acc + term;
        } else {
            acc = acc - term;
        }
        j = j + 1;
    }
    acc
}

/// The full-block bound dominates the minor-sized bound and the row-sum
/// bound.
pub proof fn lemma_fact_pow_step(m: int, b: int)
    requires
        m >= 1,
        b >= 1,
    ensures
        fact_s((m - 1) as nat) * pow_s(b, (m - 1) as nat) <= fact_s(m as nat) * pow_s(b, m as nat),
        m * (b * (fact_s((m - 1) as nat) * pow_s(b, (m - 1) as nat))) == fact_s(m as nat) * pow_s(
            b,
            m as nat,
        ),
{
    lemma_fact_mono(0, (m - 1) as nat);
    lemma_pow_mono(b, 0, (m - 1) as nat);
    assert(m * (b * (fact_s((m - 1) as nat) * pow_s(b, (m - 1) as nat))) == (m * fact_s(
        (m - 1) as nat,
    )) * (b * pow_s(b, (m - 1) as nat))) by (nonlinear_arith);
    assert(fact_s((m - 1) as nat) * pow_s(b, (m - 1) as nat) <= fact_s(m as nat) * pow_s(
        b,
        m as nat,
    )) by (nonlinear_arith)
        requires
            fact_s(m as nat) == m * fact_s((m - 1) as nat),
            pow_s(b, m as nat) == b * pow_s(b, (m - 1) as nat),
            m >= 1,
            b >= 1,
            fact_s((m - 1) as nat) >= 1,
            pow_s(b, (m - 1) as nat) >= 1,
    ;
}

/// The adjugate of the leading `m x m` block: entry `(i, j)` is the signed
/// `(j, i)` cofactor.
pub(crate) fn adj_exec(g: &Vec<Vec<i128>>, m: usize, bnd: Ghost<int>) -> (out: Vec<Vec<i128>>)
    requires
        g@.len() >= m,
        forall|i: int| 0 <= i < m ==> (#[trigger] g@[i])@.len() >= m,
        1 <= m <= DET_CAP,
        1 <= bnd@,
        entries_le(mat_v(g@), m as int, bnd@),
        fact_s(m as nat) * pow_s(bnd@, m as nat) <= SOLVE_LIM,
    ensures
        out@.len() == m,
        forall|i: int| 0 <= i < m ==> (#[trigger] out@[i])@.len() == m,
        mat_v(out@) =~~= adj_s(mat_v(g@), m as int),
        entries_le(mat_v(out@), m as int, fact_s((m - 1) as nat) * pow_s(bnd@, (m - 1) as nat)),
{
    let ghost gv = mat_v(g@);
    let ghost av = adj_s(gv, m as int);
    let ghost sub_lim = fact_s((m - 1) as nat) * pow_s(bnd@, (m - 1) as nat);
    if m == 1 {
        let mut row: Vec<i128> = Vec::new();
        row.push(1);
        let mut out: Vec<Vec<i128>> = Vec::new();
        out.push(row);
        proof {
            assert(av[0][0] == sign_s(0) * det_s(minor_rc(gv, 0, 0, 1), 0));
            assert(mat_v(out@)[0][0] == 1);
            assert(mat_v(out@) =~~= av);
        }
        return out;
    }
    let mut out: Vec<Vec<i128>> = Vec::new();
    let mut i: usize = 0;
    while i < m
        invariant
            gv == mat_v(g@),
            av == adj_s(gv, m as int),
            sub_lim == fact_s((m - 1) as nat) * pow_s(bnd@, (m - 1) as nat),
            g@.len() >= m,
            forall|t: int| 0 <= t < m ==> (#[trigger] g@[t])@.len() >= m,
            2 <= m <= DET_CAP,
            1 <= bnd@,
            entries_le(gv, m as int, bnd@),
            fact_s(m as nat) * pow_s(bnd@, m as nat) <= SOLVE_LIM,
            i <= m,
            out@.len() == i,
            forall|t: int| 0 <= t < i ==> (#[trigger] out@[t])@.len() == m,
            forall|t: int, u: int|
                0 <= t < i && 0 <= u < m ==> (#[trigger] out@[t]@[u]) as int == av[t][u]
                    && crate::fx::abs_v(out@[t]@[u] as int) <= sub_lim,
        decreases m - i,
    {
        let mut row: Vec<i128> = Vec::new();
        let mut j: usize = 0;
        while j < m
            invariant
                gv == mat_v(g@),
                av == adj_s(gv, m as int),
                sub_lim == fact_s((m - 1) as nat) * pow_s(bnd@, (m - 1) as nat),
                g@.len() >= m,
                forall|t: int| 0 <= t < m ==> (#[trigger] g@[t])@.len() >= m,
                2 <= m <= DET_CAP,
                1 <= bnd@,
                entries_le(gv, m as int, bnd@),
                fact_s(m as nat) * pow_s(bnd@, m as nat) <= SOLVE_LIM,
                i < m,
                j <= m,
                row@.len() == j,
                forall|u: int|
                    0 <= u < j ==> (#[trigger] row@[u]) as int == av[i as int][u]
                        && crate::fx::abs_v(row@[u] as int) <= sub_lim,
            decreases m - j,
        {
            proof {
                lemma_fact_pow_step(m as int, bnd@);
            }
            let sub = build_minor(g, j, i, m);
            proof {
                lemma_minor_wf(gv, j as int, i as int, m as int, bnd@);
                assert(entries_le(mat_v(sub@), (m - 1) as int, bnd@));
                assert(forall|t: int|
                    0 <= t < m - 1 ==> (#[trigger] mat_v(sub@)[t]).len() == m - 1);
            }
            let sd = det_exec(&sub, m - 1, bnd);
            proof {
                lemma_det_bound(mat_v(sub@), (m - 1) as int, bnd@);
                assert(mat_v(sub@) == minor_rc(gv, j as int, i as int, m as int));
            }
            proof {
                assert(av[i as int][j as int] == sign_s(i + j) * det_s(
                    minor_rc(gv, j as int, i as int, m as int),
                    m - 1,
                ));
                if (i + j) % 2 == 0 {
                    assert(sign_s(i + j) == 1);
                    assert(1 * sd == sd) by (nonlinear_arith);
                } else {
                    assert(sign_s(i + j) == -1);
                    assert((-1) * sd == -sd) by (nonlinear_arith);
                }
            }
            let v: i128 = if (i + j) % 2 == 0 {
                sd
            } else {
                -sd
            };
            row.push(v);
            j = j + 1;
        }
        out.push(row);
        i = i + 1;
    }
    proof {
        assert forall|t: int, u: int| 0 <= t < m && 0 <= u < m implies (#[trigger] mat_v(out@)[t][
        u]) == av[t][u] by {
            assert(mat_v(out@)[t][u] == out@[t]@[u] as int);
        }
        assert(mat_v(out@) =~~= av);
        assert forall|t: int, u: int| 0 <= t < m && 0 <= u < m implies crate::fx::abs_v(
            #[trigger] mat_v(out@)[t][u],
        ) <= sub_lim by {
            assert(mat_v(out@)[t][u] == out@[t]@[u] as int);
        }
    }
    out
}

/// Exact dot product of a witness row with a right-hand-side vector, in
/// plain arithmetic under the stated bound.
pub(crate) fn dot_exec(
    mw: &Vec<Vec<i128>>,
    a: &Vec<i128>,
    j: usize,
    m: usize,
    ba: Ghost<int>,
    bb: Ghost<int>,
) -> (r: i128)
    requires
        mw@.len() >= m,
        forall|t: int| 0 <= t < m ==> (#[trigger] mw@[t])@.len() >= m,
        a@.len() >= m,
        j < m,
        0 <= ba@,
        0 <= bb@,
        entries_le(mat_v(mw@), m as int, ba@),
        forall|t: int| 0 <= t < m ==> crate::fx::abs_v(#[trigger] vec_v(a@)[t]) <= bb@,
        m * (ba@ * bb@) <= SOLVE_LIM,
    ensures
        r == dot_n(mat_v(mw@)[j as int], vec_v(a@), m as int),
        crate::fx::abs_v(r as int) <= SOLVE_LIM,
{
    let mut acc: i128 = 0;
    let mut l: usize = 0;
    while l < m
        invariant
            mw@.len() >= m,
            forall|t: int| 0 <= t < m ==> (#[trigger] mw@[t])@.len() >= m,
            a@.len() >= m,
            j < m,
            0 <= ba@,
            0 <= bb@,
            entries_le(mat_v(mw@), m as int, ba@),
            forall|t: int| 0 <= t < m ==> crate::fx::abs_v(#[trigger] vec_v(a@)[t]) <= bb@,
            m * (ba@ * bb@) <= SOLVE_LIM,
            l <= m,
            acc == dot_n(mat_v(mw@)[j as int], vec_v(a@), l as int),
            crate::fx::abs_v(acc as int) <= l * (ba@ * bb@),
        decreases m - l,
    {
        proof {
            assert(mat_v(mw@)[j as int][l as int] == mw@[j as int]@[l as int] as int);
            assert(vec_v(a@)[l as int] == a@[l as int] as int);
            crate::fx::lemma_mul_mag(
                mw@[j as int]@[l as int] as int,
                a@[l as int] as int,
                ba@,
                bb@,
            );
            assert((l + 1) * (ba@ * bb@) == l * (ba@ * bb@) + ba@ * bb@) by (nonlinear_arith);
            assert((l + 1) * (ba@ * bb@) <= m * (ba@ * bb@)) by (nonlinear_arith)
                requires
                    l + 1 <= m,
                    ba@ * bb@ >= 0,
            ;
        }
        acc = acc + mw[j][l] * a[l];
        l = l + 1;
    }
    acc
}

/// Verified check of an inverse witness: multiplies out `m g` and `g m` in
/// plain arithmetic under the stated bound and compares against `d I`
/// exactly; the result equals the witness property.
pub(crate) fn check_witness(
    m: &Vec<Vec<i128>>,
    g: &Vec<Vec<i128>>,
    d: i128,
    dim: usize,
    bm: Ghost<int>,
    bg: Ghost<int>,
) -> (r: bool)
    requires
        m@.len() == dim,
        forall|i: int| 0 <= i < dim ==> (#[trigger] m@[i])@.len() == dim,
        g@.len() == dim,
        forall|i: int| 0 <= i < dim ==> (#[trigger] g@[i])@.len() == dim,
        d != 0,
        0 <= bm@,
        0 <= bg@,
        entries_le(mat_v(m@), dim as int, bm@),
        entries_le(mat_v(g@), dim as int, bg@),
        dim * (bm@ * bg@) <= SOLVE_LIM,
    ensures
        r == inverse_witness(mat_v(m@), mat_v(g@), d as int, dim as int),
{
    let ok1 = check_product(m, g, d, dim, bm, bg);
    if !ok1 {
        return false;
    }
    proof {
        assert(dim * (bg@ * bm@) == dim * (bm@ * bg@)) by (nonlinear_arith);
    }
    let ok2 = check_product(g, m, d, dim, bg, bm);
    proof {
        if ok2 {
            assert(mat_wf(mat_v(m@), dim as int, dim as int)) by {
                assert(forall|i: int|
                    0 <= i < dim ==> (#[trigger] mat_v(m@)[i]).len() == m@[i]@.len());
            }
            assert(mat_wf(mat_v(g@), dim as int, dim as int)) by {
                assert(forall|i: int|
                    0 <= i < dim ==> (#[trigger] mat_v(g@)[i]).len() == g@[i]@.len());
            }
        }
    }
    ok2
}

/// Verified check that `a b == d I`, entry by entry: the result equals that
/// property.
fn check_product(
    a: &Vec<Vec<i128>>,
    b: &Vec<Vec<i128>>,
    d: i128,
    dim: usize,
    ba: Ghost<int>,
    bb: Ghost<int>,
) -> (r: bool)
    requires
        a@.len() == dim,
        forall|i: int| 0 <= i < dim ==> (#[trigger] a@[i])@.len() == dim,
        b@.len() == dim,
        forall|i: int| 0 <= i < dim ==> (#[trigger] b@[i])@.len() == dim,
        0 <= ba@,
        0 <= bb@,
        entries_le(mat_v(a@), dim as int, ba@),
        entries_le(mat_v(b@), dim as int, bb@),
        dim * (ba@ * bb@) <= SOLVE_LIM,
    ensures
        r == forall|j: int, k: int|
            0 <= j < dim && 0 <= k < dim ==> #[trigger] mul_entry(
                mat_v(a@),
                mat_v(b@),
                j,
                k,
                dim as int,
            ) == if j == k {
                d as int
            } else {
                0
            },
{
    let ghost av = mat_v(a@);
    let ghost bv = mat_v(b@);
    let mut j: usize = 0;
    while j < dim
        invariant
            av == mat_v(a@),
            bv == mat_v(b@),
            a@.len() == dim,
            forall|i: int| 0 <= i < dim ==> (#[trigger] a@[i])@.len() == dim,
            b@.len() == dim,
            forall|i: int| 0 <= i < dim ==> (#[trigger] b@[i])@.len() == dim,
            0 <= ba@,
            0 <= bb@,
            entries_le(av, dim as int, ba@),
            entries_le(bv, dim as int, bb@),
            dim * (ba@ * bb@) <= SOLVE_LIM,
            j <= dim,
            forall|j2: int, k2: int|
                0 <= j2 < j && 0 <= k2 < dim ==> #[trigger] mul_entry(av, bv, j2, k2, dim as int)
                    == if j2 == k2 {
                    d as int
                } else {
                    0
                },
        decreases dim - j,
    {
        let mut k: usize = 0;
        while k < dim
            invariant
                av == mat_v(a@),
                bv == mat_v(b@),
                a@.len() == dim,
                forall|i: int| 0 <= i < dim ==> (#[trigger] a@[i])@.len() == dim,
                b@.len() == dim,
                forall|i: int| 0 <= i < dim ==> (#[trigger] b@[i])@.len() == dim,
                0 <= ba@,
                0 <= bb@,
                entries_le(av, dim as int, ba@),
                entries_le(bv, dim as int, bb@),
                dim * (ba@ * bb@) <= SOLVE_LIM,
                j < dim,
                k <= dim,
                forall|k2: int|
                    0 <= k2 < k ==> #[trigger] mul_entry(av, bv, j as int, k2, dim as int) == if j
                        == k2 {
                        d as int
                    } else {
                        0
                    },
            decreases dim - k,
        {
            let mut acc: i128 = 0;
            let mut l: usize = 0;
            while l < dim
                invariant
                    av == mat_v(a@),
                    bv == mat_v(b@),
                    a@.len() == dim,
                    forall|i: int| 0 <= i < dim ==> (#[trigger] a@[i])@.len() == dim,
                    b@.len() == dim,
                    forall|i: int| 0 <= i < dim ==> (#[trigger] b@[i])@.len() == dim,
                    0 <= ba@,
                    0 <= bb@,
                    entries_le(av, dim as int, ba@),
                    entries_le(bv, dim as int, bb@),
                    dim * (ba@ * bb@) <= SOLVE_LIM,
                    j < dim,
                    k < dim,
                    l <= dim,
                    acc == mul_entry(av, bv, j as int, k as int, l as int),
                    crate::fx::abs_v(acc as int) <= l * (ba@ * bb@),
                decreases dim - l,
            {
                proof {
                    assert(av[j as int][l as int] == a@[j as int]@[l as int] as int);
                    assert(bv[l as int][k as int] == b@[l as int]@[k as int] as int);
                    crate::fx::lemma_mul_mag(
                        a@[j as int]@[l as int] as int,
                        b@[l as int]@[k as int] as int,
                        ba@,
                        bb@,
                    );
                    assert((l + 1) * (ba@ * bb@) == l * (ba@ * bb@) + ba@ * bb@)
                        by (nonlinear_arith);
                    assert((l + 1) * (ba@ * bb@) <= dim * (ba@ * bb@)) by (nonlinear_arith)
                        requires
                            l + 1 <= dim,
                            ba@ * bb@ >= 0,
                    ;
                }
                acc = acc + a[j][l] * b[l][k];
                l = l + 1;
            }
            if acc != (if j == k {
                d
            } else {
                0
            }) {
                proof {
                    assert(mul_entry(av, bv, j as int, k as int, dim as int) != (if j == k {
                        d as int
                    } else {
                        0int
                    }));
                }
                return false;
            }
            k = k + 1;
        }
        j = j + 1;
    }
    true
}

} // verus!
