//! Piecewise polynomial interpolation through 2-D control points.
//!
//! [`build`] sorts the points by x, rejects degenerate inputs, and computes
//! per-segment polynomial coefficients for the selected [`Model`]; the
//! resulting [`Curve`] evaluates the fitted curve at any x, extrapolating
//! beyond the knot range by a fixed clamp policy.  Every coefficient is
//! pinned exactly, by the recurrences below, stated over reduced rational
//! arithmetic ([`nadd`] and friends reduce after each exact step).

use vstd::prelude::*;
use crate::rat::{
    Rat, Frac, frac_eq, frac_lt, frac_le, frac_int, frac_add, frac_sub, frac_mul, frac_div,
    frac_posden, frac_norm, frac_fits, lemma_norm_eq, lemma_den_prod_pos, lemma_nonzero_prod,
};

verus! {

/// A 2-D control point with exact rational coordinates.
#[derive(Clone, Copy, PartialEq, Eq, Structural, Debug)]
pub struct Point {
    pub x: Rat,
    pub y: Rat,
}

impl Point {
    /// Both coordinates are well-formed rationals.
    pub open spec fn wf(self) -> bool {
        self.x.wf() && self.y.wf()
    }

    /// The point `(x, y)`.
    pub fn new(x: Rat, y: Rat) -> (p: Point)
        ensures
            p.x == x,
            p.y == y,
    {
        Point { x, y }
    }
}

/// The interpolation model: which family of per-segment polynomials is
/// fitted through the knots.
#[derive(Clone, Copy, PartialEq, Eq, Structural, Debug)]
pub enum Model {
    Linear,
    Quadratic,
    Cubic,
}

/// Why construction of a curve failed.
#[derive(Clone, Copy, PartialEq, Eq, Structural, Debug)]
pub enum BuildError {
    /// Fewer than 2 points were supplied.
    InsufficientPoints,
    /// Two points share an x-coordinate, so a segment would have zero width.
    DegenerateKnotSpacing,
    /// The cubic system's forward sweep met a zero pivot.
    SingularSystem,
    /// An exact intermediate left the representable rational range.
    NumericOverflow,
}

/// Reduced sum.
pub open spec fn nadd(a: Frac, b: Frac) -> Frac {
    frac_norm(frac_add(a, b))
}

/// Reduced difference.
pub open spec fn nsub(a: Frac, b: Frac) -> Frac {
    frac_norm(frac_sub(a, b))
}

/// Reduced product.
pub open spec fn nmul(a: Frac, b: Frac) -> Frac {
    frac_norm(frac_mul(a, b))
}

/// Reduced quotient.
pub open spec fn ndiv(a: Frac, b: Frac) -> Frac {
    frac_norm(frac_posden(frac_div(a, b)))
}

/// The views of a sequence of rationals.
pub open spec fn frac_seq(s: Seq<Rat>) -> Seq<Frac> {
    s.map_values(|r: Rat| r@)
}

/// Every point has well-formed coordinates.
pub open spec fn pts_wf(s: Seq<Point>) -> bool {
    forall|j: int| 0 <= j < s.len() ==> (#[trigger] s[j]).wf()
}

/// Consecutive x-coordinates are non-decreasing.
pub open spec fn sorted_by_x(s: Seq<Point>) -> bool {
    forall|j: int| 0 <= j < s.len() - 1 ==> frac_le(#[trigger] s[j].x@, s[j + 1].x@)
}

/// Consecutive x-coordinates are strictly increasing.
pub open spec fn strict_by_x(s: Seq<Point>) -> bool {
    forall|j: int| 0 <= j < s.len() - 1 ==> frac_lt(#[trigger] s[j].x@, s[j + 1].x@)
}

/// A valid knot sequence: at least two points, well-formed, strictly
/// increasing in x.
pub open spec fn knots_ok(s: Seq<Point>) -> bool {
    s.len() >= 2 && pts_wf(s) && strict_by_x(s)
}

/// Stable insertion of `p` into a sequence sorted by x: `p` goes after
/// every element whose x is less than or equal to its own.
pub open spec fn insert_pt(s: Seq<Point>, p: Point) -> Seq<Point>
    decreases s.len(),
{
    if s.len() == 0 {
        seq![p]
    } else if frac_lt(p.x@, s.last().x@) {
        insert_pt(s.drop_last(), p).push(s.last())
    } else {
        s.push(p)
    }
}

/// Stable insertion sort of the points by x-coordinate.
pub open spec fn sort_pts(s: Seq<Point>) -> Seq<Point>
    decreases s.len(),
{
    if s.len() == 0 {
        Seq::empty()
    } else {
        insert_pt(sort_pts(s.drop_last()), s.last())
    }
}

/// Width of segment `i`: `x[i+1] - x[i]`.
pub open spec fn seg_h(ks: Seq<Point>, i: int) -> Frac {
    nsub(ks[i + 1].x@, ks[i].x@)
}

/// Secant slope of segment `i`: `(y[i+1] - y[i]) / h[i]`.
pub open spec fn secant(ks: Seq<Point>, i: int) -> Frac {
    ndiv(nsub(ks[i + 1].y@, ks[i].y@), seg_h(ks, i))
}

/// Quadratic model: the `b` coefficient of segment `i`.  The first segment
/// takes the secant slope; each later one continues the previous segment's
/// end slope (`b[i] = b[i-1] + 2 c[i-1] h[i-1]`).
pub open spec fn quad_b(ks: Seq<Point>, i: int) -> Frac
    decreases i, 1int,
{
    if i <= 0 {
        secant(ks, 0)
    } else {
        nadd(quad_b(ks, i - 1), nmul(frac_int(2), nmul(quad_c(ks, i - 1), seg_h(ks, i - 1))))
    }
}

/// Quadratic model: the `c` coefficient of segment `i`, zero on the first
/// segment and otherwise solved from `y[i+1] = y[i] + b[i] h[i] + c[i] h[i]^2`.
pub open spec fn quad_c(ks: Seq<Point>, i: int) -> Frac
    decreases i, 2int,
{
    if i <= 0 {
        frac_int(0)
    } else {
        ndiv(
            nsub(nsub(ks[i + 1].y@, ks[i].y@), nmul(quad_b(ks, i), seg_h(ks, i))),
            nmul(seg_h(ks, i), seg_h(ks, i)),
        )
    }
}

/// Cubic model: `alpha[i] = 3 (secant(i) - secant(i-1))` for interior `i`.
pub open spec fn cub_alpha(ks: Seq<Point>, i: int) -> Frac {
    nmul(frac_int(3), nsub(secant(ks, i), secant(ks, i - 1)))
}

/// Cubic model: the forward-sweep pivot `l[i]`.
pub open spec fn cub_l(ks: Seq<Point>, i: int) -> Frac
    decreases i, 1int,
{
    if i <= 0 {
        frac_int(1)
    } else {
        nsub(nmul(frac_int(2), nsub(ks[i + 1].x@, ks[i - 1].x@)), nmul(seg_h(ks, i - 1), cub_mu(ks, i - 1)))
    }
}

/// Cubic model: the forward-sweep multiplier `mu[i] = h[i] / l[i]`.
pub open spec fn cub_mu(ks: Seq<Point>, i: int) -> Frac
    decreases i, 2int,
{
    if i <= 0 {
        frac_int(0)
    } else {
        ndiv(seg_h(ks, i), cub_l(ks, i))
    }
}

/// Cubic model: the forward-sweep value `z[i]`.
pub open spec fn cub_z(ks: Seq<Point>, i: int) -> Frac
    decreases i, 2int,
{
    if i <= 0 {
        frac_int(0)
    } else {
        ndiv(nsub(cub_alpha(ks, i), nmul(seg_h(ks, i - 1), cub_z(ks, i - 1))), cub_l(ks, i))
    }
}

/// Cubic model: the backward-sweep second-derivative coefficients, with the
/// natural boundary `c[n-1] = 0`.
pub open spec fn cub_c(ks: Seq<Point>, j: int) -> Frac
    decreases ks.len() - j,
{
    if j >= ks.len() - 1 {
        frac_int(0)
    } else {
        nsub(cub_z(ks, j), nmul(cub_mu(ks, j), cub_c(ks, j + 1)))
    }
}

/// Cubic model: the `b` coefficient of segment `j`.
pub open spec fn cub_b(ks: Seq<Point>, j: int) -> Frac {
    nsub(
        secant(ks, j),
        ndiv(nmul(seg_h(ks, j), nadd(cub_c(ks, j + 1), nmul(frac_int(2), cub_c(ks, j)))), frac_int(3)),
    )
}

/// Cubic model: the `d` coefficient of segment `j`.
pub open spec fn cub_d(ks: Seq<Point>, j: int) -> Frac {
    ndiv(nsub(cub_c(ks, j + 1), cub_c(ks, j)), nmul(frac_int(3), seg_h(ks, j)))
}

/// The `b` coefficient of segment `i` under `m`.
pub open spec fn spec_b(m: Model, ks: Seq<Point>, i: int) -> Frac {
    match m {
        Model::Linear => secant(ks, i),
        Model::Quadratic => quad_b(ks, i),
        Model::Cubic => cub_b(ks, i),
    }
}

/// The `c` coefficient of segment `i` under `m`.
pub open spec fn spec_c(m: Model, ks: Seq<Point>, i: int) -> Frac {
    match m {
        Model::Linear => frac_int(0),
        Model::Quadratic => quad_c(ks, i),
        Model::Cubic => cub_c(ks, i),
    }
}

/// The `d` coefficient of segment `i` under `m`.
pub open spec fn spec_d(m: Model, ks: Seq<Point>, i: int) -> Frac {
    match m {
        Model::Linear => frac_int(0),
        Model::Quadratic => frac_int(0),
        Model::Cubic => cub_d(ks, i),
    }
}

/// The reduced intermediates of segment `i`'s linear fit, in evaluation
/// order, all stay representable.
pub open spec fn lin_seg_fits(ks: Seq<Point>, i: int) -> bool {
    &&& frac_fits(frac_sub(ks[i + 1].y@, ks[i].y@))
    &&& frac_fits(frac_sub(ks[i + 1].x@, ks[i].x@))
    &&& frac_fits(frac_posden(frac_div(nsub(ks[i + 1].y@, ks[i].y@), seg_h(ks, i))))
}

/// Every intermediate of the linear fit stays representable.
pub open spec fn lin_fits(ks: Seq<Point>) -> bool {
    forall|i: int| 0 <= i < ks.len() - 1 ==> #[trigger] lin_seg_fits(ks, i)
}

/// The reduced intermediates of segment `i >= 1` of the quadratic fit all
/// stay representable.
pub open spec fn quad_seg_fits(ks: Seq<Point>, i: int) -> bool {
    let hprev = seg_h(ks, i - 1);
    let hi = seg_h(ks, i);
    let t2 = nmul(frac_int(2), nmul(quad_c(ks, i - 1), hprev));
    let b = quad_b(ks, i);
    let num = nsub(nsub(ks[i + 1].y@, ks[i].y@), nmul(b, hi));
    &&& frac_fits(frac_sub(ks[i].x@, ks[i - 1].x@))
    &&& frac_fits(frac_sub(ks[i + 1].x@, ks[i].x@))
    &&& frac_fits(frac_mul(quad_c(ks, i - 1), hprev))
    &&& frac_fits(frac_mul(frac_int(2), nmul(quad_c(ks, i - 1), hprev)))
    &&& frac_fits(frac_add(quad_b(ks, i - 1), t2))
    &&& frac_fits(frac_sub(ks[i + 1].y@, ks[i].y@))
    &&& frac_fits(frac_mul(b, hi))
    &&& frac_fits(frac_mul(hi, hi))
    &&& frac_fits(frac_posden(frac_div(num, nmul(hi, hi))))
    &&& frac_fits(frac_sub(nsub(ks[i + 1].y@, ks[i].y@), nmul(b, hi)))
}

/// Every intermediate of the quadratic fit stays representable.
pub open spec fn quad_fits(ks: Seq<Point>) -> bool {
    &&& lin_seg_fits(ks, 0)
    &&& forall|i: int| 1 <= i < ks.len() - 1 ==> #[trigger] quad_seg_fits(ks, i)
}

/// The forward-sweep intermediates of step `i` before the pivot test.
pub open spec fn cub_pre_fits(ks: Seq<Point>, i: int) -> bool {
    let hprev = seg_h(ks, i - 1);
    let xd = nsub(ks[i + 1].x@, ks[i - 1].x@);
    &&& frac_fits(frac_sub(ks[i].x@, ks[i - 1].x@))
    &&& frac_fits(frac_sub(ks[i + 1].x@, ks[i].x@))
    &&& frac_fits(frac_sub(ks[i + 1].x@, ks[i - 1].x@))
    &&& frac_fits(frac_mul(frac_int(2), xd))
    &&& frac_fits(frac_mul(hprev, cub_mu(ks, i - 1)))
    &&& frac_fits(frac_sub(nmul(frac_int(2), xd), nmul(hprev, cub_mu(ks, i - 1))))
}

/// The forward-sweep intermediates of step `i` after the pivot test.
pub open spec fn cub_post_fits(ks: Seq<Point>, i: int) -> bool {
    let hprev = seg_h(ks, i - 1);
    let hi = seg_h(ks, i);
    let sd = nsub(secant(ks, i), secant(ks, i - 1));
    let zn = nsub(cub_alpha(ks, i), nmul(hprev, cub_z(ks, i - 1)));
    &&& frac_fits(frac_posden(frac_div(hi, cub_l(ks, i))))
    &&& frac_fits(frac_sub(ks[i].y@, ks[i - 1].y@))
    &&& frac_fits(frac_posden(frac_div(nsub(ks[i].y@, ks[i - 1].y@), hprev)))
    &&& frac_fits(frac_sub(ks[i + 1].y@, ks[i].y@))
    &&& frac_fits(frac_posden(frac_div(nsub(ks[i + 1].y@, ks[i].y@), hi)))
    &&& frac_fits(frac_sub(secant(ks, i), secant(ks, i - 1)))
    &&& frac_fits(frac_mul(frac_int(3), sd))
    &&& frac_fits(frac_mul(hprev, cub_z(ks, i - 1)))
    &&& frac_fits(frac_sub(cub_alpha(ks, i), nmul(hprev, cub_z(ks, i - 1))))
    &&& frac_fits(frac_posden(frac_div(zn, cub_l(ks, i))))
}

/// The outcome of the cubic forward sweep from step `i` on: the first
/// failure in sweep order, or `None` when every step succeeds.
pub open spec fn cub_fwd_outcome(ks: Seq<Point>, i: int) -> Option<BuildError>
    decreases ks.len() - i,
{
    if i >= ks.len() - 1 {
        None
    } else if !cub_pre_fits(ks, i) {
        Some(BuildError::NumericOverflow)
    } else if cub_l(ks, i).num == 0 {
        Some(BuildError::SingularSystem)
    } else if !cub_post_fits(ks, i) {
        Some(BuildError::NumericOverflow)
    } else {
        cub_fwd_outcome(ks, i + 1)
    }
}

/// The backward-sweep step that computes `c[j]` stays representable.
pub open spec fn cub_back_fits(ks: Seq<Point>, j: int) -> bool {
    &&& frac_fits(frac_mul(cub_mu(ks, j), cub_c(ks, j + 1)))
    &&& frac_fits(frac_sub(cub_z(ks, j), nmul(cub_mu(ks, j), cub_c(ks, j + 1))))
}

/// The intermediates that turn `c[j]`, `c[j+1]` into `b[j]` and `d[j]`
/// stay representable.
pub open spec fn cub_bd_fits(ks: Seq<Point>, j: int) -> bool {
    let hi = seg_h(ks, j);
    let sum = nadd(cub_c(ks, j + 1), nmul(frac_int(2), cub_c(ks, j)));
    let q = ndiv(nmul(hi, sum), frac_int(3));
    &&& frac_fits(frac_sub(ks[j + 1].x@, ks[j].x@))
    &&& frac_fits(frac_sub(ks[j + 1].y@, ks[j].y@))
    &&& frac_fits(frac_posden(frac_div(nsub(ks[j + 1].y@, ks[j].y@), hi)))
    &&& frac_fits(frac_mul(frac_int(2), cub_c(ks, j)))
    &&& frac_fits(frac_add(cub_c(ks, j + 1), nmul(frac_int(2), cub_c(ks, j))))
    &&& frac_fits(frac_mul(hi, sum))
    &&& frac_fits(frac_posden(frac_div(nmul(hi, sum), frac_int(3))))
    &&& frac_fits(frac_sub(secant(ks, j), q))
    &&& frac_fits(frac_mul(frac_int(3), hi))
    &&& frac_fits(frac_sub(cub_c(ks, j + 1), cub_c(ks, j)))
    &&& frac_fits(frac_posden(frac_div(nsub(cub_c(ks, j + 1), cub_c(ks, j)), nmul(frac_int(3), hi))))
}

/// The exact outcome of the cubic fit: the forward sweep's first failure,
/// else overflow in the backward sweep or the coefficient assembly, else
/// success.
pub open spec fn cubic_outcome(ks: Seq<Point>) -> Option<BuildError> {
    match cub_fwd_outcome(ks, 1) {
        Some(e) => Some(e),
        None => if (forall|j: int| 0 <= j < ks.len() - 1 ==> #[trigger] cub_back_fits(ks, j))
            && (forall|j: int| 0 <= j < ks.len() - 1 ==> #[trigger] cub_bd_fits(ks, j)) {
            None
        } else {
            Some(BuildError::NumericOverflow)
        },
    }
}

/// The exact outcome of fitting `m` through the sorted, strictly
/// increasing knots `ks`: `None` means a curve is owed; `Some(e)` names
/// the error that is returned.
pub open spec fn build_outcome(m: Model, ks: Seq<Point>) -> Option<BuildError> {
    match m {
        Model::Linear => if lin_fits(ks) {
            None
        } else {
            Some(BuildError::NumericOverflow)
        },
        Model::Quadratic => if quad_fits(ks) {
            None
        } else {
            Some(BuildError::NumericOverflow)
        },
        Model::Cubic => cubic_outcome(ks),
    }
}

/// The curve interpolating the sorted knots `ks` under model `m`:
/// coefficient sequences of length `ks.len() - 1` agreeing with the model's
/// recurrences, each a well-formed rational.
pub open spec fn coeffs_ok(m: Model, ks: Seq<Point>, bs: Seq<Rat>, cs: Seq<Rat>, ds: Seq<Rat>) -> bool {
    &&& bs.len() == ks.len() - 1
    &&& cs.len() == ks.len() - 1
    &&& ds.len() == ks.len() - 1
    &&& forall|i: int| 0 <= i < ks.len() - 1 ==> (#[trigger] bs[i])@ == spec_b(m, ks, i) && bs[i].wf()
    &&& forall|i: int| 0 <= i < ks.len() - 1 ==> (#[trigger] cs[i])@ == spec_c(m, ks, i) && cs[i].wf()
    &&& forall|i: int| 0 <= i < ks.len() - 1 ==> (#[trigger] ds[i])@ == spec_d(m, ks, i) && ds[i].wf()
}

/// The index of the segment that evaluation at `x` uses: the smallest `i`
/// with `x <= x[i+1]`, capped at the last segment.
pub open spec fn seg_of(ks: Seq<Point>, x: Frac, i: int) -> int
    decreases ks.len() - i,
{
    if i >= ks.len() - 2 {
        i
    } else if frac_le(x, ks[i + 1].x@) {
        i
    } else {
        seg_of(ks, x, i + 1)
    }
}

/// The value of segment `i`'s polynomial at offset `dx` from its left
/// knot, in the evaluation order of [`Curve::evaluate`].
pub open spec fn poly_at(m: Model, ks: Seq<Point>, bs: Seq<Frac>, cs: Seq<Frac>, ds: Seq<Frac>, i: int, dx: Frac) -> Frac {
    let v1 = nadd(ks[i].y@, nmul(bs[i], dx));
    let dx2 = nmul(dx, dx);
    let v2 = nadd(v1, nmul(cs[i], dx2));
    let dx3 = nmul(dx2, dx);
    let v3 = nadd(v2, nmul(ds[i], dx3));
    match m {
        Model::Linear => v1,
        Model::Quadratic => v2,
        Model::Cubic => v3,
    }
}

/// The exact value of the curve at `x`, including the extrapolation
/// policy: below the first knot the linear model continues segment 0's
/// polynomial while the other models clamp to the first knot's y; above
/// the last knot the linear model continues the last slope anchored at the
/// last knot while the other models clamp to the last knot's y.
pub open spec fn spec_eval(m: Model, ks: Seq<Point>, bs: Seq<Frac>, cs: Seq<Frac>, ds: Seq<Frac>, x: Frac) -> Frac {
    let n = ks.len() as int;
    if frac_lt(x, ks[0].x@) {
        if m == Model::Linear {
            nadd(ks[0].y@, nmul(bs[0], nsub(x, ks[0].x@)))
        } else {
            ks[0].y@
        }
    } else if frac_lt(ks[n - 1].x@, x) {
        if m == Model::Linear {
            nadd(ks[n - 1].y@, nmul(bs[n - 2], nsub(x, ks[n - 1].x@)))
        } else {
            ks[n - 1].y@
        }
    } else if frac_eq(x, ks[n - 1].x@) {
        ks[n - 1].y@
    } else {
        let i = seg_of(ks, x, 0);
        poly_at(m, ks, bs, cs, ds, i, nsub(x, ks[i].x@))
    }
}

/// The three linear-extrapolation steps (offset, slope times offset, sum
/// with the anchor knot's y) all stay representable.
pub open spec fn ext_fits(y: Frac, b: Frac, xk: Frac, x: Frac) -> bool {
    &&& frac_fits(frac_sub(x, xk))
    &&& frac_fits(frac_mul(b, nsub(x, xk)))
    &&& frac_fits(frac_add(y, nmul(b, nsub(x, xk))))
}

/// Every reduced intermediate of evaluation at `x`, along the branch that
/// [`spec_eval`] takes, stays representable.  On the clamp and
/// exact-last-knot paths no arithmetic happens, so this holds trivially.
pub open spec fn eval_fits(m: Model, ks: Seq<Point>, bs: Seq<Frac>, cs: Seq<Frac>, ds: Seq<Frac>, x: Frac) -> bool {
    let n = ks.len() as int;
    if frac_lt(x, ks[0].x@) {
        m != Model::Linear || ext_fits(ks[0].y@, bs[0], ks[0].x@, x)
    } else if frac_lt(ks[n - 1].x@, x) {
        m != Model::Linear || ext_fits(ks[n - 1].y@, bs[n - 2], ks[n - 1].x@, x)
    } else if frac_eq(x, ks[n - 1].x@) {
        true
    } else {
        let i = seg_of(ks, x, 0);
        let dx = nsub(x, ks[i].x@);
        let v1 = nadd(ks[i].y@, nmul(bs[i], dx));
        let dx2 = nmul(dx, dx);
        let v2 = nadd(v1, nmul(cs[i], dx2));
        let dx3 = nmul(dx2, dx);
        frac_fits(frac_sub(x, ks[i].x@)) && frac_fits(frac_mul(bs[i], dx)) && frac_fits(
            frac_add(ks[i].y@, nmul(bs[i], dx)),
        ) && (m == Model::Linear || (frac_fits(frac_mul(dx, dx)) && frac_fits(
            frac_mul(cs[i], dx2),
        ) && frac_fits(frac_add(v1, nmul(cs[i], dx2))) && (m == Model::Quadratic || (frac_fits(
            frac_mul(dx2, dx),
        ) && frac_fits(frac_mul(ds[i], dx3)) && frac_fits(frac_add(v2, nmul(ds[i], dx3)))))))
    }
}

/// A fitted curve: the knots sorted by x and one cubic polynomial
/// `a + b dx + c dx^2 + d dx^3` per segment (`a` is the left knot's y; the
/// unused higher coefficients are zero for the lower-degree models).
pub struct Curve {
    model: Model,
    knots: Vec<Point>,
    bs: Vec<Rat>,
    cs: Vec<Rat>,
    ds: Vec<Rat>,
}

impl View for Curve {
    type V = CurveV;

    closed spec fn view(&self) -> CurveV {
        CurveV { model: self.model, knots: self.knots@, bs: self.bs@, cs: self.cs@, ds: self.ds@ }
    }
}

/// The mathematical content of a curve.
pub ghost struct CurveV {
    pub model: Model,
    pub knots: Seq<Point>,
    pub bs: Seq<Rat>,
    pub cs: Seq<Rat>,
    pub ds: Seq<Rat>,
}

impl Curve {
    /// The structural invariant every curve built by [`build`] satisfies.
    pub open spec fn wf(self) -> bool {
        knots_ok(self@.knots) && coeffs_ok(self@.model, self@.knots, self@.bs, self@.cs, self@.ds)
    }

    /// The model this curve was fitted under.
    pub open spec fn spec_model(self) -> Model {
        self@.model
    }

    /// The sorted knots.
    pub open spec fn spec_knots(self) -> Seq<Point> {
        self@.knots
    }

    /// The model this curve was fitted under.
    pub fn model(&self) -> (m: Model)
        ensures
            m == self.spec_model(),
    {
        self.model
    }

    /// How many knots the curve passes through.
    pub fn knot_count(&self) -> (n: usize)
        ensures
            n == self.spec_knots().len(),
    {
        self.knots.len()
    }

    /// Knot `i` of the sorted sequence.
    pub fn knot(&self, i: usize) -> (p: Point)
        requires
            i < self.spec_knots().len(),
        ensures
            p == self.spec_knots()[i as int],
    {
        self.knots[i]
    }

    /// The `b` coefficient of segment `i`.
    pub fn coef_b(&self, i: usize) -> (r: Rat)
        requires
            self.wf(),
            i < self.spec_knots().len() - 1,
        ensures
            r@ == spec_b(self.spec_model(), self.spec_knots(), i as int),
    {
        self.bs[i]
    }

    /// The `c` coefficient of segment `i`.
    pub fn coef_c(&self, i: usize) -> (r: Rat)
        requires
            self.wf(),
            i < self.spec_knots().len() - 1,
        ensures
            r@ == spec_c(self.spec_model(), self.spec_knots(), i as int),
    {
        self.cs[i]
    }

    /// The `d` coefficient of segment `i`.
    pub fn coef_d(&self, i: usize) -> (r: Rat)
        requires
            self.wf(),
            i < self.spec_knots().len() - 1,
        ensures
            r@ == spec_d(self.spec_model(), self.spec_knots(), i as int),
    {
        self.ds[i]
    }

    /// The value of the curve at `x`, exactly [`spec_eval`]; `None` exactly
    /// when a reduced intermediate along the taken branch leaves the
    /// representable range ([`eval_fits`]), which the clamped out-of-range
    /// and exact-last-knot paths never do.
    pub fn evaluate(&self, x: Rat) -> (r: Option<Rat>)
        requires
            self.wf(),
            x.wf(),
        ensures
            r is Some ==> r.unwrap().wf() && r.unwrap()@ == spec_eval(
                self.spec_model(),
                self.spec_knots(),
                frac_seq(self@.bs),
                frac_seq(self@.cs),
                frac_seq(self@.ds),
                x@,
            ),
            r is Some <==> eval_fits(
                self.spec_model(),
                self.spec_knots(),
                frac_seq(self@.bs),
                frac_seq(self@.cs),
                frac_seq(self@.ds),
                x@,
            ),
    {
        let ghost ks = self.knots@;
        let n: usize = self.knots.len();
        let mut i: usize = 0;
        while i < n - 2 && self.knots[i + 1].x.lt(&x)
            invariant
                self.wf(),
                x.wf(),
                n == ks.len(),
                n >= 2,
                ks == self.knots@,
                0 <= i < n - 1,
                seg_of(ks, x@, 0) == seg_of(ks, x@, i as int),
            decreases n - i,
        {
            i = i + 1;
        }
        proof {
            assert(seg_of(ks, x@, i as int) == i as int);
        }
        if x.lt(&self.knots[0].x) {
            if matches!(self.model, Model::Linear) {
                let dx = match x.sub(&self.knots[0].x) {
                    Some(v) => v,
                    None => { return None; },
                };
                let t = match self.bs[0].mul(&dx) {
                    Some(v) => v,
                    None => { return None; },
                };
                let v = match self.knots[0].y.add(&t) {
                    Some(v) => v,
                    None => { return None; },
                };
                Some(v)
            } else {
                Some(self.knots[0].y)
            }
        } else if self.knots[n - 1].x.lt(&x) {
            if matches!(self.model, Model::Linear) {
                let dx = match x.sub(&self.knots[n - 1].x) {
                    Some(v) => v,
                    None => { return None; },
                };
                let t = match self.bs[n - 2].mul(&dx) {
                    Some(v) => v,
                    None => { return None; },
                };
                let v = match self.knots[n - 1].y.add(&t) {
                    Some(v) => v,
                    None => { return None; },
                };
                Some(v)
            } else {
                Some(self.knots[n - 1].y)
            }
        } else if x.eq_val(&self.knots[n - 1].x) {
            Some(self.knots[n - 1].y)
        } else {
            let dx = match x.sub(&self.knots[i].x) {
                Some(v) => v,
                None => { return None; },
            };
            let t1 = match self.bs[i].mul(&dx) {
                Some(v) => v,
                None => { return None; },
            };
            let v1 = match self.knots[i].y.add(&t1) {
                Some(v) => v,
                None => { return None; },
            };
            if matches!(self.model, Model::Linear) {
                Some(v1)
            } else {
                let dx2 = match dx.mul(&dx) {
                    Some(v) => v,
                    None => { return None; },
                };
                let t2 = match self.cs[i].mul(&dx2) {
                    Some(v) => v,
                    None => { return None; },
                };
                let v2 = match v1.add(&t2) {
                    Some(v) => v,
                    None => { return None; },
                };
                if matches!(self.model, Model::Quadratic) {
                    Some(v2)
                } else {
                    let dx3 = match dx2.mul(&dx) {
                        Some(v) => v,
                        None => { return None; },
                    };
                    let t3 = match self.ds[i].mul(&dx3) {
                        Some(v) => v,
                        None => { return None; },
                    };
                    let v3 = match v2.add(&t3) {
                        Some(v) => v,
                        None => { return None; },
                    };
                    Some(v3)
                }
            }
        }
    }
}


proof fn lemma_insert_last(s: Seq<Point>, p: Point)
    ensures
        insert_pt(s, p).last() == p || (s.len() > 0 && insert_pt(s, p).last() == s.last()),
        insert_pt(s, p).len() == s.len() + 1,
    decreases s.len(),
{
    if s.len() == 0 {
    } else if frac_lt(p.x@, s.last().x@) {
        lemma_insert_last(s.drop_last(), p);
    } else {
    }
}

proof fn lemma_insert_props(s: Seq<Point>, p: Point)
    requires
        pts_wf(s),
        p.wf(),
        sorted_by_x(s),
    ensures
        pts_wf(insert_pt(s, p)),
        sorted_by_x(insert_pt(s, p)),
        insert_pt(s, p).len() == s.len() + 1,
    decreases s.len(),
{
    lemma_insert_last(s, p);
    let r = insert_pt(s, p);
    if s.len() == 0 {
        assert(r =~= seq![p]);
        assert forall|j: int| 0 <= j < r.len() implies (#[trigger] r[j]).wf() by {
            assert(r[j] == p);
        }
    } else if frac_lt(p.x@, s.last().x@) {
        let dl = s.drop_last();
        assert(pts_wf(dl) && sorted_by_x(dl)) by {
            assert(forall|j: int| 0 <= j < dl.len() ==> dl[j] == s[j]);
        }
        lemma_insert_props(dl, p);
        lemma_insert_last(dl, p);
        let t = insert_pt(dl, p);
        assert(r == t.push(s.last()));
        assert forall|j: int| 0 <= j < r.len() implies (#[trigger] r[j]).wf() by {
            if j < t.len() {
                assert(r[j] == t[j]);
            } else {
                assert(r[j] == s.last());
            }
        }
        assert forall|j: int| 0 <= j < r.len() - 1 implies frac_le(#[trigger] r[j].x@, r[j + 1].x@) by {
            if j + 1 < t.len() {
                assert(r[j] == t[j] && r[j + 1] == t[j + 1]);
            } else {
                assert(r[j] == t.last() && r[j + 1] == s.last());
                if t.last() == p {
                } else {
                    assert(t.last() == dl.last());
                    assert(dl.last() == s[s.len() - 2] && s.last() == s[s.len() - 1]);
                }
            }
        }
    } else {
        assert(r == s.push(p));
        assert forall|j: int| 0 <= j < r.len() implies (#[trigger] r[j]).wf() by {
            if j < s.len() {
                assert(r[j] == s[j]);
            } else {
                assert(r[j] == p);
            }
        }
        assert forall|j: int| 0 <= j < r.len() - 1 implies frac_le(#[trigger] r[j].x@, r[j + 1].x@) by {
            if j + 1 < s.len() {
                assert(r[j] == s[j] && r[j + 1] == s[j + 1]);
            } else {
                assert(r[j] == s.last() && r[j + 1] == p);
            }
        }
    }
}

proof fn lemma_sort_props(s: Seq<Point>)
    requires
        pts_wf(s),
    ensures
        pts_wf(sort_pts(s)),
        sorted_by_x(sort_pts(s)),
        sort_pts(s).len() == s.len(),
    decreases s.len(),
{
    if s.len() == 0 {
    } else {
        let dl = s.drop_last();
        assert(pts_wf(dl)) by {
            assert(forall|j: int| 0 <= j < dl.len() ==> dl[j] == s[j]);
        }
        lemma_sort_props(dl);
        assert(s.last().wf());
        lemma_insert_props(sort_pts(dl), s.last());
    }
}

proof fn lemma_insert_multiset(s: Seq<Point>, p: Point)
    ensures
        insert_pt(s, p).to_multiset() == s.to_multiset().insert(p),
    decreases s.len(),
{
    broadcast use vstd::seq_lib::group_to_multiset_ensures;

    if s.len() == 0 {
        assert(insert_pt(s, p) =~= s.push(p));
    } else if frac_lt(p.x@, s.last().x@) {
        let dl = s.drop_last();
        lemma_insert_multiset(dl, p);
        assert(s =~= dl.push(s.last()));
        assert(insert_pt(s, p).to_multiset() =~= insert_pt(dl, p).to_multiset().insert(s.last()));
        assert(dl.to_multiset().insert(p).insert(s.last()) =~= dl.to_multiset().insert(
            s.last(),
        ).insert(p));
    } else {
    }
}

/// Sorting permutes the points: the sorted sequence holds exactly the
/// same points, with multiplicity, as the input.
pub proof fn lemma_sort_permutes(s: Seq<Point>)
    ensures
        sort_pts(s).to_multiset() == s.to_multiset(),
    decreases s.len(),
{
    broadcast use vstd::seq_lib::group_to_multiset_ensures;

    if s.len() == 0 {
        assert(sort_pts(s) =~= s);
    } else {
        let dl = s.drop_last();
        lemma_sort_permutes(dl);
        lemma_insert_multiset(sort_pts(dl), s.last());
        assert(s =~= dl.push(s.last()));
    }
}

/// Insert `p` into a vector sorted by x, keeping it sorted and stable.
fn insert_one(out: &mut Vec<Point>, p: Point)
    requires
        pts_wf(old(out)@),
        p.wf(),
    ensures
        final(out)@ == insert_pt(old(out)@, p),
{
    let ghost v = out@;
    let mut k: usize = out.len();
    proof {
        assert(v.take(v.len() as int) =~= v);
        assert(insert_pt(v, p) + v.skip(v.len() as int) =~= insert_pt(v, p));
    }
    while k > 0 && p.x.lt(&out[k - 1].x)
        invariant
            pts_wf(v),
            p.wf(),
            out@ == v,
            k <= v.len(),
            insert_pt(v, p) == insert_pt(v.take(k as int), p) + v.skip(k as int),
        decreases k,
    {
        proof {
            let kk = k as int;
            assert(v.take(kk).last() == v[kk - 1]);
            assert(v.take(kk).drop_last() =~= v.take(kk - 1));
            assert(insert_pt(v.take(kk), p) == insert_pt(v.take(kk - 1), p).push(v[kk - 1]));
            assert(insert_pt(v.take(kk - 1), p).push(v[kk - 1]) + v.skip(kk) =~= insert_pt(
                v.take(kk - 1),
                p,
            ) + v.skip(kk - 1));
        }
        k = k - 1;
    }
    proof {
        let kk = k as int;
        if k > 0 {
            assert(v.take(kk).last() == v[kk - 1]);
            assert(insert_pt(v.take(kk), p) == v.take(kk).push(p));
        } else {
            assert(v.take(0int).len() == 0);
            assert(insert_pt(v.take(0int), p) == seq![p]);
            assert(seq![p] =~= v.take(0int).push(p));
        }
        assert(v.take(kk).push(p) + v.skip(kk) =~= v.insert(kk, p));
    }
    out.insert(k, p);
}

/// A copy of the points, stably sorted by x-coordinate.
fn sorted_copy(points: &Vec<Point>) -> (out: Vec<Point>)
    requires
        pts_wf(points@),
    ensures
        out@ == sort_pts(points@),
        pts_wf(out@),
        sorted_by_x(out@),
        out@.len() == points@.len(),
{
    let ghost pv = points@;
    let mut out: Vec<Point> = Vec::new();
    let mut idx: usize = 0;
    while idx < points.len()
        invariant
            pv == points@,
            idx <= pv.len(),
            pts_wf(pv),
            out@ == sort_pts(pv.take(idx as int)),
            pts_wf(out@),
            sorted_by_x(out@),
        decreases points.len() - idx,
    {
        let p = points[idx];
        proof {
            assert(p.wf());
            assert(pts_wf(pv.take(idx as int))) by {
                assert(forall|j: int| 0 <= j < idx ==> pv.take(idx as int)[j] == pv[j]);
            }
            lemma_sort_props(pv.take(idx as int));
            lemma_insert_props(out@, p);
            assert(pv.take(idx as int + 1).drop_last() =~= pv.take(idx as int));
            assert(pv.take(idx as int + 1).last() == pv[idx as int]);
        }
        insert_one(&mut out, p);
        idx = idx + 1;
    }
    proof {
        assert(pv.take(pv.len() as int) =~= pv);
        lemma_sort_props(pv);
    }
    out
}

/// Every consecutive pair of the sorted knots has distinct x.
fn check_strict(ks: &Vec<Point>) -> (ok: bool)
    requires
        pts_wf(ks@),
        sorted_by_x(ks@),
        ks@.len() >= 1,
    ensures
        ok == strict_by_x(ks@),
{
    let n: usize = ks.len();
    let mut i: usize = 0;
    while i < n - 1
        invariant
            pts_wf(ks@),
            sorted_by_x(ks@),
            n == ks@.len(),
            n >= 1,
            i <= n - 1,
            forall|j: int| 0 <= j < i ==> frac_lt(#[trigger] ks@[j].x@, ks@[j + 1].x@),
        decreases n - i,
    {
        if ks[i].x.eq_val(&ks[i + 1].x) {
            proof {
                assert(!frac_lt(ks@[i as int].x@, ks@[i as int + 1].x@));
            }
            return false;
        }
        i = i + 1;
    }
    true
}

/// `seg_h(ks, i)` has a positive numerator when the knots strictly increase.
proof fn lemma_h_pos(ks: Seq<Point>, i: int)
    requires
        knots_ok(ks),
        0 <= i < ks.len() - 1,
    ensures
        seg_h(ks, i).num > 0,
        seg_h(ks, i).den > 0,
{
    let xa = ks[i].x@;
    let xb = ks[i + 1].x@;
    lemma_den_prod_pos(xb.den, xa.den);
    lemma_norm_eq(frac_sub(xb, xa));
}

fn lin_coeffs(ks: &Vec<Point>) -> (r: Result<(Vec<Rat>, Vec<Rat>, Vec<Rat>), BuildError>)
    requires
        knots_ok(ks@),
    ensures
        match r {
            Ok(t) => coeffs_ok(Model::Linear, ks@, t.0@, t.1@, t.2@) && lin_fits(ks@),
            Err(e) => e == BuildError::NumericOverflow && !lin_fits(ks@),
        },
{
    let n: usize = ks.len();
    let mut bs: Vec<Rat> = Vec::new();
    let mut cs: Vec<Rat> = Vec::new();
    let mut ds: Vec<Rat> = Vec::new();
    let mut i: usize = 0;
    while i < n - 1
        invariant
            knots_ok(ks@),
            n == ks@.len(),
            i <= n - 1,
            bs@.len() == i && cs@.len() == i && ds@.len() == i,
            forall|j: int| 0 <= j < i ==> (#[trigger] bs@[j])@ == spec_b(Model::Linear, ks@, j) && bs@[j].wf(),
            forall|j: int| 0 <= j < i ==> (#[trigger] cs@[j])@ == spec_c(Model::Linear, ks@, j) && cs@[j].wf(),
            forall|j: int| 0 <= j < i ==> (#[trigger] ds@[j])@ == spec_d(Model::Linear, ks@, j) && ds@[j].wf(),
            forall|j: int| 0 <= j < i ==> #[trigger] lin_seg_fits(ks@, j),
        decreases n - 1 - i,
    {
        proof {
            lemma_h_pos(ks@, i as int);
        }
        let dy = match ks[i + 1].y.sub(&ks[i].y) {
            Some(v) => v,
            None => {
                proof {
                    assert(!lin_seg_fits(ks@, i as int));
                }
                return Err(BuildError::NumericOverflow);
            },
        };
        let h = match ks[i + 1].x.sub(&ks[i].x) {
            Some(v) => v,
            None => {
                proof {
                    assert(!lin_seg_fits(ks@, i as int));
                }
                return Err(BuildError::NumericOverflow);
            },
        };
        let b = match dy.div(&h) {
            Some(v) => v,
            None => {
                proof {
                    assert(!lin_seg_fits(ks@, i as int));
                }
                return Err(BuildError::NumericOverflow);
            },
        };
        proof {
            assert(lin_seg_fits(ks@, i as int));
        }
        bs.push(b);
        cs.push(Rat::from_int(0));
        ds.push(Rat::from_int(0));
        i = i + 1;
    }
    Ok((bs, cs, ds))
}

fn quad_coeffs(ks: &Vec<Point>) -> (r: Result<(Vec<Rat>, Vec<Rat>, Vec<Rat>), BuildError>)
    requires
        knots_ok(ks@),
    ensures
        match r {
            Ok(t) => coeffs_ok(Model::Quadratic, ks@, t.0@, t.1@, t.2@) && quad_fits(ks@),
            Err(e) => e == BuildError::NumericOverflow && !quad_fits(ks@),
        },
{
    let n: usize = ks.len();
    let two = Rat::from_int(2);
    let mut bs: Vec<Rat> = Vec::new();
    let mut cs: Vec<Rat> = Vec::new();
    let mut ds: Vec<Rat> = Vec::new();
    proof {
        lemma_h_pos(ks@, 0int);
    }
    let dy0 = match ks[1].y.sub(&ks[0].y) {
        Some(v) => v,
        None => {
            proof {
                assert(!lin_seg_fits(ks@, 0int));
            }
            return Err(BuildError::NumericOverflow);
        },
    };
    let h0 = match ks[1].x.sub(&ks[0].x) {
        Some(v) => v,
        None => {
            proof {
                assert(!lin_seg_fits(ks@, 0int));
            }
            return Err(BuildError::NumericOverflow);
        },
    };
    let b0 = match dy0.div(&h0) {
        Some(v) => v,
        None => {
            proof {
                assert(!lin_seg_fits(ks@, 0int));
            }
            return Err(BuildError::NumericOverflow);
        },
    };
    proof {
        assert(lin_seg_fits(ks@, 0int));
    }
    bs.push(b0);
    cs.push(Rat::from_int(0));
    ds.push(Rat::from_int(0));
    let mut i: usize = 1;
    while i < n - 1
        invariant
            knots_ok(ks@),
            n == ks@.len(),
            1 <= i <= n - 1,
            two@ == frac_int(2),
            bs@.len() == i && cs@.len() == i && ds@.len() == i,
            forall|j: int| 0 <= j < i ==> (#[trigger] bs@[j])@ == spec_b(Model::Quadratic, ks@, j) && bs@[j].wf(),
            forall|j: int| 0 <= j < i ==> (#[trigger] cs@[j])@ == spec_c(Model::Quadratic, ks@, j) && cs@[j].wf(),
            forall|j: int| 0 <= j < i ==> (#[trigger] ds@[j])@ == spec_d(Model::Quadratic, ks@, j) && ds@[j].wf(),
            lin_seg_fits(ks@, 0int),
            forall|j: int| 1 <= j < i ==> #[trigger] quad_seg_fits(ks@, j),
        decreases n - 1 - i,
    {
        proof {
            lemma_h_pos(ks@, i as int);
            lemma_h_pos(ks@, i as int - 1);
        }
        let hprev = match ks[i].x.sub(&ks[i - 1].x) {
            Some(v) => v,
            None => {
                proof {
                    assert(!quad_seg_fits(ks@, i as int));
                }
                return Err(BuildError::NumericOverflow);
            },
        };
        let hi = match ks[i + 1].x.sub(&ks[i].x) {
            Some(v) => v,
            None => {
                proof {
                    assert(!quad_seg_fits(ks@, i as int));
                }
                return Err(BuildError::NumericOverflow);
            },
        };
        let t = match cs[i - 1].mul(&hprev) {
            Some(v) => v,
            None => {
                proof {
                    assert(!quad_seg_fits(ks@, i as int));
                }
                return Err(BuildError::NumericOverflow);
            },
        };
        let t2 = match two.mul(&t) {
            Some(v) => v,
            None => {
                proof {
                    assert(!quad_seg_fits(ks@, i as int));
                }
                return Err(BuildError::NumericOverflow);
            },
        };
        let b = match bs[i - 1].add(&t2) {
            Some(v) => v,
            None => {
                proof {
                    assert(!quad_seg_fits(ks@, i as int));
                }
                return Err(BuildError::NumericOverflow);
            },
        };
        proof {
            assert(b@ == quad_b(ks@, i as int));
        }
        let dy = match ks[i + 1].y.sub(&ks[i].y) {
            Some(v) => v,
            None => {
                proof {
                    assert(!quad_seg_fits(ks@, i as int));
                }
                return Err(BuildError::NumericOverflow);
            },
        };
        let bh = match b.mul(&hi) {
            Some(v) => v,
            None => {
                proof {
                    assert(!quad_seg_fits(ks@, i as int));
                }
                return Err(BuildError::NumericOverflow);
            },
        };
        let num = match dy.sub(&bh) {
            Some(v) => v,
            None => {
                proof {
                    assert(!quad_seg_fits(ks@, i as int));
                }
                return Err(BuildError::NumericOverflow);
            },
        };
        let h2 = match hi.mul(&hi) {
            Some(v) => v,
            None => {
                proof {
                    assert(!quad_seg_fits(ks@, i as int));
                }
                return Err(BuildError::NumericOverflow);
            },
        };
        proof {
            let hs = seg_h(ks@, i as int);
            lemma_nonzero_prod(hs.num, hs.num);
            lemma_den_prod_pos(hs.den, hs.den);
            lemma_norm_eq(frac_mul(hs, hs));
            assert(h2@.num != 0);
        }
        let c = match num.div(&h2) {
            Some(v) => v,
            None => {
                proof {
                    assert(!quad_seg_fits(ks@, i as int));
                }
                return Err(BuildError::NumericOverflow);
            },
        };
        proof {
            assert(c@ == quad_c(ks@, i as int));
            assert(quad_seg_fits(ks@, i as int));
        }
        bs.push(b);
        cs.push(c);
        ds.push(Rat::from_int(0));
        i = i + 1;
    }
    Ok((bs, cs, ds))
}

#[verifier::rlimit(30)]
fn cubic_coeffs(ks: &Vec<Point>) -> (r: Result<(Vec<Rat>, Vec<Rat>, Vec<Rat>), BuildError>)
    requires
        knots_ok(ks@),
    ensures
        match r {
            Ok(t) => coeffs_ok(Model::Cubic, ks@, t.0@, t.1@, t.2@) && cubic_outcome(ks@) is None,
            Err(e) => (e == BuildError::NumericOverflow || e == BuildError::SingularSystem)
                && cubic_outcome(ks@) == Some(e),
        },
{
    let n: usize = ks.len();
    let two = Rat::from_int(2);
    let three = Rat::from_int(3);
    let mut lv: Vec<Rat> = Vec::new();
    let mut muv: Vec<Rat> = Vec::new();
    let mut zv: Vec<Rat> = Vec::new();
    lv.push(Rat::from_int(1));
    muv.push(Rat::from_int(0));
    zv.push(Rat::from_int(0));
    let mut i: usize = 1;
    while i < n - 1
        invariant
            knots_ok(ks@),
            n == ks@.len(),
            1 <= i <= n - 1,
            two@ == frac_int(2),
            three@ == frac_int(3),
            lv@.len() == i && muv@.len() == i && zv@.len() == i,
            forall|j: int| 0 <= j < i ==> (#[trigger] lv@[j])@ == cub_l(ks@, j) && lv@[j].wf(),
            forall|j: int| 0 <= j < i ==> (#[trigger] muv@[j])@ == cub_mu(ks@, j) && muv@[j].wf(),
            forall|j: int| 0 <= j < i ==> (#[trigger] zv@[j])@ == cub_z(ks@, j) && zv@[j].wf(),
            cub_fwd_outcome(ks@, 1) == cub_fwd_outcome(ks@, i as int),
        decreases n - 1 - i,
    {
        proof {
            lemma_h_pos(ks@, i as int);
            lemma_h_pos(ks@, i as int - 1);
        }
        let hprev = match ks[i].x.sub(&ks[i - 1].x) {
            Some(v) => v,
            None => {
                proof {
                    assert(!cub_pre_fits(ks@, i as int));
                    assert(cub_fwd_outcome(ks@, i as int) == Some(BuildError::NumericOverflow));
                    assert(cubic_outcome(ks@) == Some(BuildError::NumericOverflow));
                }
                return Err(BuildError::NumericOverflow);
            },
        };
        let hi = match ks[i + 1].x.sub(&ks[i].x) {
            Some(v) => v,
            None => {
                proof {
                    assert(!cub_pre_fits(ks@, i as int));
                    assert(cub_fwd_outcome(ks@, i as int) == Some(BuildError::NumericOverflow));
                    assert(cubic_outcome(ks@) == Some(BuildError::NumericOverflow));
                }
                return Err(BuildError::NumericOverflow);
            },
        };
        let xdiff = match ks[i + 1].x.sub(&ks[i - 1].x) {
            Some(v) => v,
            None => {
                proof {
                    assert(!cub_pre_fits(ks@, i as int));
                    assert(cub_fwd_outcome(ks@, i as int) == Some(BuildError::NumericOverflow));
                    assert(cubic_outcome(ks@) == Some(BuildError::NumericOverflow));
                }
                return Err(BuildError::NumericOverflow);
            },
        };
        let t = match two.mul(&xdiff) {
            Some(v) => v,
            None => {
                proof {
                    assert(!cub_pre_fits(ks@, i as int));
                    assert(cub_fwd_outcome(ks@, i as int) == Some(BuildError::NumericOverflow));
                    assert(cubic_outcome(ks@) == Some(BuildError::NumericOverflow));
                }
                return Err(BuildError::NumericOverflow);
            },
        };
        let m = match hprev.mul(&muv[i - 1]) {
            Some(v) => v,
            None => {
                proof {
                    assert(!cub_pre_fits(ks@, i as int));
                    assert(cub_fwd_outcome(ks@, i as int) == Some(BuildError::NumericOverflow));
                    assert(cubic_outcome(ks@) == Some(BuildError::NumericOverflow));
                }
                return Err(BuildError::NumericOverflow);
            },
        };
        let li = match t.sub(&m) {
            Some(v) => v,
            None => {
                proof {
                    assert(!cub_pre_fits(ks@, i as int));
                    assert(cub_fwd_outcome(ks@, i as int) == Some(BuildError::NumericOverflow));
                    assert(cubic_outcome(ks@) == Some(BuildError::NumericOverflow));
                }
                return Err(BuildError::NumericOverflow);
            },
        };
        proof {
            assert(li@ == cub_l(ks@, i as int));
        }
        proof {
            assert(cub_pre_fits(ks@, i as int));
        }
        if li.is_zero() {
            proof {
                assert(cub_fwd_outcome(ks@, i as int) == Some(BuildError::SingularSystem));
                assert(cubic_outcome(ks@) == Some(BuildError::SingularSystem));
            }
            return Err(BuildError::SingularSystem);
        }
        let mui = match hi.div(&li) {
            Some(v) => v,
            None => {
                proof {
                    assert(cub_pre_fits(ks@, i as int));
                    assert(!cub_post_fits(ks@, i as int));
                    assert(cub_fwd_outcome(ks@, i as int) == Some(BuildError::NumericOverflow));
                    assert(cubic_outcome(ks@) == Some(BuildError::NumericOverflow));
                }
                return Err(BuildError::NumericOverflow);
            },
        };
        let dyp = match ks[i].y.sub(&ks[i - 1].y) {
            Some(v) => v,
            None => {
                proof {
                    assert(cub_pre_fits(ks@, i as int));
                    assert(!cub_post_fits(ks@, i as int));
                    assert(cub_fwd_outcome(ks@, i as int) == Some(BuildError::NumericOverflow));
                    assert(cubic_outcome(ks@) == Some(BuildError::NumericOverflow));
                }
                return Err(BuildError::NumericOverflow);
            },
        };
        let secp = match dyp.div(&hprev) {
            Some(v) => v,
            None => {
                proof {
                    assert(cub_pre_fits(ks@, i as int));
                    assert(!cub_post_fits(ks@, i as int));
                    assert(cub_fwd_outcome(ks@, i as int) == Some(BuildError::NumericOverflow));
                    assert(cubic_outcome(ks@) == Some(BuildError::NumericOverflow));
                }
                return Err(BuildError::NumericOverflow);
            },
        };
        let dyi = match ks[i + 1].y.sub(&ks[i].y) {
            Some(v) => v,
            None => {
                proof {
                    assert(cub_pre_fits(ks@, i as int));
                    assert(!cub_post_fits(ks@, i as int));
                    assert(cub_fwd_outcome(ks@, i as int) == Some(BuildError::NumericOverflow));
                    assert(cubic_outcome(ks@) == Some(BuildError::NumericOverflow));
                }
                return Err(BuildError::NumericOverflow);
            },
        };
        let seci = match dyi.div(&hi) {
            Some(v) => v,
            None => {
                proof {
                    assert(cub_pre_fits(ks@, i as int));
                    assert(!cub_post_fits(ks@, i as int));
                    assert(cub_fwd_outcome(ks@, i as int) == Some(BuildError::NumericOverflow));
                    assert(cubic_outcome(ks@) == Some(BuildError::NumericOverflow));
                }
                return Err(BuildError::NumericOverflow);
            },
        };
        let sd = match seci.sub(&secp) {
            Some(v) => v,
            None => {
                proof {
                    assert(cub_pre_fits(ks@, i as int));
                    assert(!cub_post_fits(ks@, i as int));
                    assert(cub_fwd_outcome(ks@, i as int) == Some(BuildError::NumericOverflow));
                    assert(cubic_outcome(ks@) == Some(BuildError::NumericOverflow));
                }
                return Err(BuildError::NumericOverflow);
            },
        };
        let alpha = match three.mul(&sd) {
            Some(v) => v,
            None => {
                proof {
                    assert(cub_pre_fits(ks@, i as int));
                    assert(!cub_post_fits(ks@, i as int));
                    assert(cub_fwd_outcome(ks@, i as int) == Some(BuildError::NumericOverflow));
                    assert(cubic_outcome(ks@) == Some(BuildError::NumericOverflow));
                }
                return Err(BuildError::NumericOverflow);
            },
        };
        proof {
            assert(alpha@ == cub_alpha(ks@, i as int));
        }
        let hz = match hprev.mul(&zv[i - 1]) {
            Some(v) => v,
            None => {
                proof {
                    assert(cub_pre_fits(ks@, i as int));
                    assert(!cub_post_fits(ks@, i as int));
                    assert(cub_fwd_outcome(ks@, i as int) == Some(BuildError::NumericOverflow));
                    assert(cubic_outcome(ks@) == Some(BuildError::NumericOverflow));
                }
                return Err(BuildError::NumericOverflow);
            },
        };
        let zn = match alpha.sub(&hz) {
            Some(v) => v,
            None => {
                proof {
                    assert(cub_pre_fits(ks@, i as int));
                    assert(!cub_post_fits(ks@, i as int));
                    assert(cub_fwd_outcome(ks@, i as int) == Some(BuildError::NumericOverflow));
                    assert(cubic_outcome(ks@) == Some(BuildError::NumericOverflow));
                }
                return Err(BuildError::NumericOverflow);
            },
        };
        let zi = match zn.div(&li) {
            Some(v) => v,
            None => {
                proof {
                    assert(cub_pre_fits(ks@, i as int));
                    assert(!cub_post_fits(ks@, i as int));
                    assert(cub_fwd_outcome(ks@, i as int) == Some(BuildError::NumericOverflow));
                    assert(cubic_outcome(ks@) == Some(BuildError::NumericOverflow));
                }
                return Err(BuildError::NumericOverflow);
            },
        };
        proof {
            assert(zi@ == cub_z(ks@, i as int));
        }
        proof {
            assert(cub_post_fits(ks@, i as int));
            assert(cub_fwd_outcome(ks@, i as int) == cub_fwd_outcome(ks@, i as int + 1));
        }
        lv.push(li);
        muv.push(mui);
        zv.push(zi);
        i = i + 1;
    }
    proof {
        assert(cub_fwd_outcome(ks@, 1) == None::<BuildError>);
    }
    let mut cints: Vec<Rat> = Vec::new();
    cints.push(Rat::from_int(0));
    let mut j: usize = n - 1;
    while j > 0
        invariant
            knots_ok(ks@),
            n == ks@.len(),
            j <= n - 1,
            lv@.len() == n - 1 && muv@.len() == n - 1 && zv@.len() == n - 1,
            forall|k: int| 0 <= k < n - 1 ==> (#[trigger] lv@[k])@ == cub_l(ks@, k) && lv@[k].wf(),
            forall|k: int| 0 <= k < n - 1 ==> (#[trigger] muv@[k])@ == cub_mu(ks@, k) && muv@[k].wf(),
            forall|k: int| 0 <= k < n - 1 ==> (#[trigger] zv@[k])@ == cub_z(ks@, k) && zv@[k].wf(),
            cints@.len() == n - j,
            forall|k: int| 0 <= k < n - j ==> (#[trigger] cints@[k])@ == cub_c(ks@, j + k) && cints@[k].wf(),
            cub_fwd_outcome(ks@, 1) == None::<BuildError>,
            forall|k: int| j <= k < n - 1 ==> #[trigger] cub_back_fits(ks@, k),
        decreases j,
    {
        let prod = match muv[j - 1].mul(&cints[0]) {
            Some(v) => v,
            None => {
                proof {
                    assert(!cub_back_fits(ks@, j as int - 1));
                    assert(cubic_outcome(ks@) == Some(BuildError::NumericOverflow));
                }
                return Err(BuildError::NumericOverflow);
            },
        };
        let cj = match zv[j - 1].sub(&prod) {
            Some(v) => v,
            None => {
                proof {
                    assert(!cub_back_fits(ks@, j as int - 1));
                    assert(cubic_outcome(ks@) == Some(BuildError::NumericOverflow));
                }
                return Err(BuildError::NumericOverflow);
            },
        };
        proof {
            assert(cints@[0]@ == cub_c(ks@, j as int));
            assert(cj@ == cub_c(ks@, j as int - 1));
            assert(cub_back_fits(ks@, j as int - 1));
        }
        cints.insert(0, cj);
        j = j - 1;
    }
    let mut bs: Vec<Rat> = Vec::new();
    let mut cs: Vec<Rat> = Vec::new();
    let mut ds: Vec<Rat> = Vec::new();
    let mut i2: usize = 0;
    while i2 < n - 1
        invariant
            knots_ok(ks@),
            n == ks@.len(),
            i2 <= n - 1,
            two@ == frac_int(2),
            three@ == frac_int(3),
            cints@.len() == n,
            forall|k: int| 0 <= k < n ==> (#[trigger] cints@[k])@ == cub_c(ks@, k) && cints@[k].wf(),
            cub_fwd_outcome(ks@, 1) == None::<BuildError>,
            forall|k: int| 0 <= k < n - 1 ==> #[trigger] cub_back_fits(ks@, k),
            forall|k: int| 0 <= k < i2 ==> #[trigger] cub_bd_fits(ks@, k),
            bs@.len() == i2 && cs@.len() == i2 && ds@.len() == i2,
            forall|k: int| 0 <= k < i2 ==> (#[trigger] bs@[k])@ == spec_b(Model::Cubic, ks@, k) && bs@[k].wf(),
            forall|k: int| 0 <= k < i2 ==> (#[trigger] cs@[k])@ == spec_c(Model::Cubic, ks@, k) && cs@[k].wf(),
            forall|k: int| 0 <= k < i2 ==> (#[trigger] ds@[k])@ == spec_d(Model::Cubic, ks@, k) && ds@[k].wf(),
        decreases n - 1 - i2,
    {
        proof {
            lemma_h_pos(ks@, i2 as int);
        }
        let hi = match ks[i2 + 1].x.sub(&ks[i2].x) {
            Some(v) => v,
            None => {
                proof {
                    assert(!cub_bd_fits(ks@, i2 as int));
                    assert(cubic_outcome(ks@) == Some(BuildError::NumericOverflow));
                }
                return Err(BuildError::NumericOverflow);
            },
        };
        let dy = match ks[i2 + 1].y.sub(&ks[i2].y) {
            Some(v) => v,
            None => {
                proof {
                    assert(!cub_bd_fits(ks@, i2 as int));
                    assert(cubic_outcome(ks@) == Some(BuildError::NumericOverflow));
                }
                return Err(BuildError::NumericOverflow);
            },
        };
        let sec = match dy.div(&hi) {
            Some(v) => v,
            None => {
                proof {
                    assert(!cub_bd_fits(ks@, i2 as int));
                    assert(cubic_outcome(ks@) == Some(BuildError::NumericOverflow));
                }
                return Err(BuildError::NumericOverflow);
            },
        };
        let tc = match two.mul(&cints[i2]) {
            Some(v) => v,
            None => {
                proof {
                    assert(!cub_bd_fits(ks@, i2 as int));
                    assert(cubic_outcome(ks@) == Some(BuildError::NumericOverflow));
                }
                return Err(BuildError::NumericOverflow);
            },
        };
        let sum = match cints[i2 + 1].add(&tc) {
            Some(v) => v,
            None => {
                proof {
                    assert(!cub_bd_fits(ks@, i2 as int));
                    assert(cubic_outcome(ks@) == Some(BuildError::NumericOverflow));
                }
                return Err(BuildError::NumericOverflow);
            },
        };
        let hs = match hi.mul(&sum) {
            Some(v) => v,
            None => {
                proof {
                    assert(!cub_bd_fits(ks@, i2 as int));
                    assert(cubic_outcome(ks@) == Some(BuildError::NumericOverflow));
                }
                return Err(BuildError::NumericOverflow);
            },
        };
        let q = match hs.div(&three) {
            Some(v) => v,
            None => {
                proof {
                    assert(!cub_bd_fits(ks@, i2 as int));
                    assert(cubic_outcome(ks@) == Some(BuildError::NumericOverflow));
                }
                return Err(BuildError::NumericOverflow);
            },
        };
        let b = match sec.sub(&q) {
            Some(v) => v,
            None => {
                proof {
                    assert(!cub_bd_fits(ks@, i2 as int));
                    assert(cubic_outcome(ks@) == Some(BuildError::NumericOverflow));
                }
                return Err(BuildError::NumericOverflow);
            },
        };
        proof {
            assert(b@ == cub_b(ks@, i2 as int));
        }
        let dn = match three.mul(&hi) {
            Some(v) => v,
            None => {
                proof {
                    assert(!cub_bd_fits(ks@, i2 as int));
                    assert(cubic_outcome(ks@) == Some(BuildError::NumericOverflow));
                }
                return Err(BuildError::NumericOverflow);
            },
        };
        proof {
            let hsg = seg_h(ks@, i2 as int);
            lemma_nonzero_prod(3int, hsg.num);
            lemma_den_prod_pos(1int, hsg.den);
            lemma_norm_eq(frac_mul(frac_int(3), hsg));
            assert(dn@.num != 0);
        }
        let dc = match cints[i2 + 1].sub(&cints[i2]) {
            Some(v) => v,
            None => {
                proof {
                    assert(!cub_bd_fits(ks@, i2 as int));
                    assert(cubic_outcome(ks@) == Some(BuildError::NumericOverflow));
                }
                return Err(BuildError::NumericOverflow);
            },
        };
        let d = match dc.div(&dn) {
            Some(v) => v,
            None => {
                proof {
                    assert(!cub_bd_fits(ks@, i2 as int));
                    assert(cubic_outcome(ks@) == Some(BuildError::NumericOverflow));
                }
                return Err(BuildError::NumericOverflow);
            },
        };
        proof {
            assert(d@ == cub_d(ks@, i2 as int));
            assert(cub_bd_fits(ks@, i2 as int));
        }
        bs.push(b);
        cs.push(cints[i2]);
        ds.push(d);
        i2 = i2 + 1;
    }
    Ok((bs, cs, ds))
}

/// Fit a curve through `points` under `model`.
///
/// Fails with `InsufficientPoints` exactly when fewer than two points are
/// given, and with `DegenerateKnotSpacing` exactly when, after the sort,
/// two consecutive knots share an x-coordinate.  On every other input the
/// result is the function [`build_outcome`] of the sorted knots: a curve
/// whose coefficients equal the model's recurrences exactly, or
/// `SingularSystem` for the first zero pivot of the cubic forward sweep,
/// or `NumericOverflow` for the first reduced intermediate that leaves
/// the representable rational range.
pub fn build(points: &Vec<Point>, model: Model) -> (r: Result<Curve, BuildError>)
    requires
        pts_wf(points@),
    ensures
        match r {
            Ok(c) => c.wf() && c@.model == model && c@.knots == sort_pts(points@) && points@.len()
                >= 2,
            Err(e) => true,
        },
        r == Err::<Curve, BuildError>(BuildError::InsufficientPoints) <==> points@.len() < 2,
        r == Err::<Curve, BuildError>(BuildError::DegenerateKnotSpacing) <==> points@.len() >= 2
            && !strict_by_x(sort_pts(points@)),
        r == Err::<Curve, BuildError>(BuildError::SingularSystem) ==> model == Model::Cubic,
        points@.len() >= 2 && strict_by_x(sort_pts(points@)) ==> match build_outcome(
            model,
            sort_pts(points@),
        ) {
            None => r is Ok,
            Some(e) => r == Err::<Curve, BuildError>(e),
        },
{
    if points.len() < 2 {
        return Err(BuildError::InsufficientPoints);
    }
    let ks = sorted_copy(points);
    if !check_strict(&ks) {
        return Err(BuildError::DegenerateKnotSpacing);
    }
    let coeffs = match model {
        Model::Linear => lin_coeffs(&ks),
        Model::Quadratic => quad_coeffs(&ks),
        Model::Cubic => cubic_coeffs(&ks),
    };
    match coeffs {
        Ok(t) => {
            let (bs, cs, ds) = t;
            Ok(Curve { model, knots: ks, bs, cs, ds })
        },
        Err(e) => Err(e),
    }
}

} // verus!
