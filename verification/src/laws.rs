//! Library-wide laws, proved once and for all curves that [`crate::spline::build`]
//! can produce.

use vstd::prelude::*;
use crate::rat::{
    Frac, frac_eq, frac_lt, frac_le, frac_int, frac_sub, frac_add, frac_mul, frac_div,
    frac_posden, lemma_norm_eq, lemma_den_prod_pos, lemma_add_zero, lemma_eq_trans,
    lemma_view_injective, lemma_mul_cong_left, lemma_add_cong_left, lemma_add_cong_right,
    lemma_div_mul_cancel, lemma_add_sub, lemma_regroup, lemma_nonzero_prod,
};
use crate::spline::{
    Curve, Model, Point, sort_pts, frac_seq, spec_eval, spec_b, spec_c, spec_d, seg_of, poly_at,
    nsub, nmul, nadd, knots_ok, cub_c, cub_mu, cub_z, seg_h, secant, quad_b, quad_c,
};

verus! {

proof fn lemma_le_trans(a: Frac, b: Frac, c: Frac) by (nonlinear_arith)
    requires
        frac_le(a, b),
        frac_le(b, c),
        a.den > 0,
        b.den > 0,
        c.den > 0,
    ensures
        frac_le(a, c),
{
}

proof fn lemma_lt_le_trans(a: Frac, b: Frac, c: Frac) by (nonlinear_arith)
    requires
        frac_lt(a, b),
        frac_le(b, c),
        a.den > 0,
        b.den > 0,
        c.den > 0,
    ensures
        frac_lt(a, c),
{
}

/// In a valid knot sequence every knot lies strictly left of every later one.
proof fn lemma_span_ij(ks: Seq<Point>, i: int, j: int)
    requires
        knots_ok(ks),
        0 <= i < j < ks.len(),
    ensures
        frac_lt(ks[i].x@, ks[j].x@),
    decreases j - i,
{
    if j == i + 1 {
    } else {
        lemma_span_ij(ks, i, j - 1);
        assert(frac_lt(ks[j - 1].x@, ks[j].x@));
        lemma_lt_le_trans(ks[i].x@, ks[j - 1].x@, ks[j].x@);
    }
}

/// Evaluation at an interior knot's x selects the segment ending there.
proof fn lemma_seg_at_knot(ks: Seq<Point>, i: int, j: int)
    requires
        knots_ok(ks),
        1 <= i <= ks.len() - 2,
        0 <= j <= i - 1,
    ensures
        seg_of(ks, ks[i].x@, j) == i - 1,
    decreases i - j,
{
    let x = ks[i].x@;
    if j == i - 1 {
        assert(frac_le(x, ks[j + 1].x@));
    } else {
        lemma_span_ij(ks, j + 1, i);
        assert(!frac_le(x, ks[j + 1].x@));
        lemma_seg_at_knot(ks, i, j + 1);
    }
}

/// Rebuild determinism: two curves fitted from the same point sequence
/// under the same model are identical component by component -- the same
/// knots and bitwise the same coefficients -- so the curve they describe
/// is the same function of x, and evaluation returns identical results.
pub proof fn law_rebuild_deterministic(c1: Curve, c2: Curve, pts: Seq<Point>, m: Model)
    requires
        c1.wf(),
        c2.wf(),
        c1@.model == m,
        c2@.model == m,
        c1@.knots == sort_pts(pts),
        c2@.knots == sort_pts(pts),
    ensures
        c1@.knots == c2@.knots,
        c1@.bs == c2@.bs,
        c1@.cs == c2@.cs,
        c1@.ds == c2@.ds,
        frac_seq(c1@.bs) == frac_seq(c2@.bs),
        frac_seq(c1@.cs) == frac_seq(c2@.cs),
        frac_seq(c1@.ds) == frac_seq(c2@.ds),
        forall|x: Frac|
            spec_eval(m, c1@.knots, frac_seq(c1@.bs), frac_seq(c1@.cs), frac_seq(c1@.ds), x)
                == spec_eval(m, c2@.knots, frac_seq(c2@.bs), frac_seq(c2@.cs), frac_seq(c2@.ds), x),
{
    let ks = c1@.knots;
    assert(frac_seq(c1@.bs) =~= frac_seq(c2@.bs)) by {
        assert(forall|i: int| 0 <= i < ks.len() - 1 ==> (#[trigger] c1@.bs[i])@ == spec_b(m, ks, i)
            && c2@.bs[i]@ == spec_b(m, ks, i));
    }
    assert(frac_seq(c1@.cs) =~= frac_seq(c2@.cs)) by {
        assert(forall|i: int| 0 <= i < ks.len() - 1 ==> (#[trigger] c1@.cs[i])@ == spec_c(m, ks, i)
            && c2@.cs[i]@ == spec_c(m, ks, i));
    }
    assert(frac_seq(c1@.ds) =~= frac_seq(c2@.ds)) by {
        assert(forall|i: int| 0 <= i < ks.len() - 1 ==> (#[trigger] c1@.ds[i])@ == spec_d(m, ks, i)
            && c2@.ds[i]@ == spec_d(m, ks, i));
    }
    assert forall|i: int| 0 <= i < ks.len() - 1 implies #[trigger] c1@.bs[i] == c2@.bs[i] by {
        lemma_view_injective(c1@.bs[i], c2@.bs[i]);
    }
    assert forall|i: int| 0 <= i < ks.len() - 1 implies #[trigger] c1@.cs[i] == c2@.cs[i] by {
        lemma_view_injective(c1@.cs[i], c2@.cs[i]);
    }
    assert forall|i: int| 0 <= i < ks.len() - 1 implies #[trigger] c1@.ds[i] == c2@.ds[i] by {
        lemma_view_injective(c1@.ds[i], c2@.ds[i]);
    }
    assert(c1@.bs =~= c2@.bs);
    assert(c1@.cs =~= c2@.cs);
    assert(c1@.ds =~= c2@.ds);
}

/// Interpolation at the first knot: evaluating any well-formed curve at
/// the first knot's x yields the first knot's y, exactly.
pub proof fn law_interpolates_first_knot(c: Curve)
    requires
        c.wf(),
    ensures
        frac_eq(
            spec_eval(
                c@.model,
                c@.knots,
                frac_seq(c@.bs),
                frac_seq(c@.cs),
                frac_seq(c@.ds),
                c@.knots[0].x@,
            ),
            c@.knots[0].y@,
        ),
{
    let ks = c@.knots;
    let n = ks.len() as int;
    let x0 = ks[0].x@;
    let y0 = ks[0].y@;
    lemma_span_ij(ks, 0, n - 1);
    assert(!frac_lt(x0, x0));
    assert(!frac_lt(ks[n - 1].x@, x0));
    assert(!frac_eq(x0, ks[n - 1].x@));
    assert(seg_of(ks, x0, 0) == 0) by {
        if n > 2 {
            assert(frac_lt(ks[0].x@, ks[1].x@));
            assert(frac_le(x0, ks[1].x@));
        }
    }
    let bs = frac_seq(c@.bs);
    let cs = frac_seq(c@.cs);
    let ds = frac_seq(c@.ds);
    let dx = nsub(x0, x0);
    lemma_den_prod_pos(x0.den, x0.den);
    assert(frac_sub(x0, x0).num == 0);
    lemma_norm_eq(frac_sub(x0, x0));
    assert(dx.num == 0 && dx.den > 0);
    // b * dx has a zero numerator
    let t1r = frac_mul(bs[0], dx);
    lemma_den_prod_pos(bs[0].den, dx.den);
    assert(t1r.num == 0);
    lemma_norm_eq(t1r);
    let t1 = nmul(bs[0], dx);
    assert(t1.num == 0 && t1.den > 0);
    // v1 = y0 + t1 denotes y0
    let v1r = frac_add(y0, t1);
    lemma_den_prod_pos(y0.den, t1.den);
    lemma_add_zero(y0, t1);
    lemma_norm_eq(v1r);
    let v1 = nadd(y0, t1);
    lemma_eq_trans(v1, v1r, y0);
    assert(frac_eq(v1, y0) && v1.den > 0);
    // c * dx^2 has a zero numerator
    let dx2 = nmul(dx, dx);
    lemma_den_prod_pos(dx.den, dx.den);
    lemma_norm_eq(frac_mul(dx, dx));
    assert(dx2.num == 0 && dx2.den > 0);
    let t2r = frac_mul(cs[0], dx2);
    lemma_den_prod_pos(cs[0].den, dx2.den);
    assert(t2r.num == 0);
    lemma_norm_eq(t2r);
    let t2 = nmul(cs[0], dx2);
    let v2r = frac_add(v1, t2);
    lemma_den_prod_pos(v1.den, t2.den);
    lemma_add_zero(v1, t2);
    lemma_norm_eq(v2r);
    let v2 = nadd(v1, t2);
    lemma_eq_trans(v2, v2r, v1);
    lemma_eq_trans(v2, v1, y0);
    assert(frac_eq(v2, y0) && v2.den > 0);
    // d * dx^3 has a zero numerator
    let dx3 = nmul(dx2, dx);
    lemma_den_prod_pos(dx2.den, dx.den);
    lemma_norm_eq(frac_mul(dx2, dx));
    assert(dx3.num == 0 && dx3.den > 0);
    let t3r = frac_mul(ds[0], dx3);
    lemma_den_prod_pos(ds[0].den, dx3.den);
    assert(t3r.num == 0);
    lemma_norm_eq(t3r);
    let t3 = nmul(ds[0], dx3);
    let v3r = frac_add(v2, t3);
    lemma_den_prod_pos(v2.den, t3.den);
    lemma_add_zero(v2, t3);
    lemma_norm_eq(v3r);
    let v3 = nadd(v2, t3);
    lemma_eq_trans(v3, v3r, v2);
    lemma_eq_trans(v3, v2, y0);
    assert(frac_eq(v3, y0));
    assert(poly_at(c@.model, ks, bs, cs, ds, 0, dx) == v1 || poly_at(
        c@.model,
        ks,
        bs,
        cs,
        ds,
        0,
        dx,
    ) == v2 || poly_at(c@.model, ks, bs, cs, ds, 0, dx) == v3);
}

/// Interpolation at the last knot: evaluating any well-formed curve at the
/// last knot's x yields the last knot's y, exactly.
pub proof fn law_interpolates_last_knot(c: Curve)
    requires
        c.wf(),
    ensures
        spec_eval(
            c@.model,
            c@.knots,
            frac_seq(c@.bs),
            frac_seq(c@.cs),
            frac_seq(c@.ds),
            c@.knots[c@.knots.len() - 1].x@,
        ) == c@.knots[c@.knots.len() - 1].y@,
{
    let ks = c@.knots;
    let n = ks.len() as int;
    let xl = ks[n - 1].x@;
    lemma_span_ij(ks, 0, n - 1);
    assert(!frac_lt(xl, ks[0].x@));
    assert(!frac_lt(xl, xl));
    assert(frac_eq(xl, xl));
}

/// Natural-boundary start for the cubic model: the curve's second
/// derivative at the first knot, `2 c[0]`, is exactly zero.
pub proof fn law_cubic_natural_start(c: Curve)
    requires
        c.wf(),
        c@.model == Model::Cubic,
    ensures
        c@.cs[0]@.num == 0,
{
    let ks = c@.knots;
    let n = ks.len() as int;
    let c1 = cub_c(ks, 1);
    assert(c1.den > 0) by {
        if n == 2 {
            assert(cub_c(ks, 1) == frac_int(0));
        } else {
            assert(c@.cs[1]@ == cub_c(ks, 1));
            assert(c@.cs[1].wf());
        }
    }
    let t = nmul(frac_int(0), c1);
    assert(frac_mul(frac_int(0), c1) == Frac { num: 0, den: c1.den });
    lemma_norm_eq(frac_mul(frac_int(0), c1));
    assert(t.num == 0 && t.den > 0);
    assert(cub_mu(ks, 0) == frac_int(0) && cub_z(ks, 0) == frac_int(0));
    let raw = frac_sub(frac_int(0), t);
    assert(raw == Frac { num: -t.num, den: t.den });
    lemma_norm_eq(raw);
    assert(cub_c(ks, 0) == nsub(cub_z(ks, 0), t));
    assert(cub_c(ks, 0).num == 0);
    assert(c@.cs[0]@ == cub_c(ks, 0));
}

/// The affine step of a segment whose slope is the secant lands exactly
/// on the right knot: `y[j] + secant(j) * h[j]` denotes `y[j+1]`.
proof fn lemma_secant_step(ks: Seq<Point>, j: int)
    requires
        knots_ok(ks),
        0 <= j < ks.len() - 1,
    ensures
        frac_eq(nadd(ks[j].y@, nmul(secant(ks, j), seg_h(ks, j))), ks[j + 1].y@),
        nadd(ks[j].y@, nmul(secant(ks, j), seg_h(ks, j))).den > 0,
{
    assert(ks[j].wf() && ks[j + 1].wf());
    let y0 = ks[j].y@;
    let y1 = ks[j + 1].y@;
    let x0 = ks[j].x@;
    let x1 = ks[j + 1].x@;
    // the segment width, with a positive numerator
    lemma_den_prod_pos(x1.den, x0.den);
    lemma_norm_eq(frac_sub(x1, x0));
    let h = seg_h(ks, j);
    assert(h.num > 0 && h.den > 0);
    // the secant denotes (y1 - y0) / h
    let sb = frac_sub(y1, y0);
    lemma_den_prod_pos(y1.den, y0.den);
    lemma_norm_eq(sb);
    let dy = nsub(y1, y0);
    let d = frac_div(dy, h);
    lemma_den_prod_pos(dy.den, h.num);
    assert(frac_posden(d) == d);
    lemma_norm_eq(d);
    let sec = secant(ks, j);
    assert(frac_eq(sec, d) && sec.den > 0);
    // sec * h denotes y1 - y0
    let m = frac_mul(sec, h);
    lemma_den_prod_pos(sec.den, h.den);
    lemma_norm_eq(m);
    let t = nmul(sec, h);
    lemma_mul_cong_left(sec, d, h);
    lemma_div_mul_cancel(dy, h);
    lemma_eq_trans(t, m, frac_mul(d, h));
    lemma_eq_trans(t, frac_mul(d, h), dy);
    lemma_eq_trans(t, dy, sb);
    assert(frac_eq(t, sb) && t.den > 0);
    // y0 + sec * h denotes y1
    let v1r = frac_add(y0, t);
    lemma_den_prod_pos(y0.den, t.den);
    lemma_norm_eq(v1r);
    let v1 = nadd(y0, t);
    lemma_add_cong_right(y0, t, sb);
    lemma_add_sub(y0, y1);
    lemma_eq_trans(v1, v1r, frac_add(y0, sb));
    lemma_eq_trans(v1, frac_add(y0, sb), y1);
}

/// Interpolation at every knot for the linear model: evaluating a
/// well-formed linear curve at any knot's x yields that knot's y, exactly.
pub proof fn law_linear_interpolates_knots(c: Curve, i: int)
    requires
        c.wf(),
        c@.model == Model::Linear,
        0 <= i < c@.knots.len(),
    ensures
        frac_eq(
            spec_eval(
                c@.model,
                c@.knots,
                frac_seq(c@.bs),
                frac_seq(c@.cs),
                frac_seq(c@.ds),
                c@.knots[i].x@,
            ),
            c@.knots[i].y@,
        ),
{
    let ks = c@.knots;
    let n = ks.len() as int;
    if i == 0 {
        law_interpolates_first_knot(c);
    } else if i == n - 1 {
        law_interpolates_last_knot(c);
    } else {
        let x = ks[i].x@;
        lemma_span_ij(ks, 0, i);
        lemma_span_ij(ks, i, n - 1);
        assert(!frac_lt(x, ks[0].x@) && !frac_lt(ks[n - 1].x@, x) && !frac_eq(x, ks[n - 1].x@));
        lemma_seg_at_knot(ks, i, 0);
        lemma_secant_step(ks, i - 1);
        assert(frac_seq(c@.bs)[i - 1] == secant(ks, i - 1));
        assert(nsub(x, ks[i - 1].x@) == seg_h(ks, i - 1));
    }
}

/// Interpolation at every knot for the quadratic model: the `c`
/// coefficient is solved from exactly this condition, so evaluating a
/// well-formed quadratic curve at any knot's x yields that knot's y.
pub proof fn law_quadratic_interpolates_knots(c: Curve, i: int)
    requires
        c.wf(),
        c@.model == Model::Quadratic,
        0 <= i < c@.knots.len(),
    ensures
        frac_eq(
            spec_eval(
                c@.model,
                c@.knots,
                frac_seq(c@.bs),
                frac_seq(c@.cs),
                frac_seq(c@.ds),
                c@.knots[i].x@,
            ),
            c@.knots[i].y@,
        ),
{
    let ks = c@.knots;
    let n = ks.len() as int;
    if i == 0 {
        law_interpolates_first_knot(c);
    } else if i == n - 1 {
        law_interpolates_last_knot(c);
    } else {
        let x = ks[i].x@;
        lemma_span_ij(ks, 0, i);
        lemma_span_ij(ks, i, n - 1);
        assert(!frac_lt(x, ks[0].x@) && !frac_lt(ks[n - 1].x@, x) && !frac_eq(x, ks[n - 1].x@));
        lemma_seg_at_knot(ks, i, 0);
        let j = i - 1;
        assert(ks[j].wf() && ks[i].wf());
        let y0 = ks[j].y@;
        let y1 = ks[i].y@;
        let b = frac_seq(c@.bs)[j];
        let cj = frac_seq(c@.cs)[j];
        assert(b == quad_b(ks, j) && b.den > 0) by {
            assert(c@.bs[j]@ == spec_b(Model::Quadratic, ks, j) && c@.bs[j].wf());
        }
        assert(cj == quad_c(ks, j) && cj.den > 0) by {
            assert(c@.cs[j]@ == spec_c(Model::Quadratic, ks, j) && c@.cs[j].wf());
        }
        // the segment width, with a positive numerator
        lemma_den_prod_pos(x.den, ks[j].x@.den);
        lemma_norm_eq(frac_sub(x, ks[j].x@));
        let h = seg_h(ks, j);
        assert(h.num > 0 && h.den > 0);
        assert(nsub(x, ks[j].x@) == h);
        // the first-degree step
        let bh = nmul(b, h);
        lemma_den_prod_pos(b.den, h.den);
        lemma_norm_eq(frac_mul(b, h));
        assert(frac_eq(bh, frac_mul(b, h)) && bh.den > 0);
        let v1r = frac_add(y0, bh);
        lemma_den_prod_pos(y0.den, bh.den);
        lemma_norm_eq(v1r);
        let v1 = nadd(y0, bh);
        assert(frac_eq(v1, v1r) && v1.den > 0);
        // the squared width, with a positive numerator
        let dx2 = nmul(h, h);
        lemma_den_prod_pos(h.num, h.num);
        lemma_den_prod_pos(h.den, h.den);
        lemma_norm_eq(frac_mul(h, h));
        assert(dx2.num > 0 && dx2.den > 0);
        // the curvature step
        let t2 = nmul(cj, dx2);
        lemma_den_prod_pos(cj.den, dx2.den);
        lemma_norm_eq(frac_mul(cj, dx2));
        assert(frac_eq(t2, frac_mul(cj, dx2)) && t2.den > 0);
        let v2r = frac_add(v1, t2);
        lemma_den_prod_pos(v1.den, t2.den);
        lemma_norm_eq(v2r);
        let v2 = nadd(v1, t2);
        assert(frac_eq(v2, v2r) && v2.den > 0);
        if j == 0 {
            // the first segment's curvature is zero and its slope the secant
            assert(cj == frac_int(0));
            vstd::arithmetic::mul::lemma_mul_by_zero_is_zero(dx2.num);
            assert(frac_mul(cj, dx2).num == 0);
            assert(t2.num == 0);
            lemma_add_zero(v1, t2);
            lemma_secant_step(ks, 0);
            lemma_eq_trans(v2, v2r, v1);
            lemma_eq_trans(v2, v1, y1);
        } else {
            // cj was solved from y1 == y0 + b h + cj h^2
            let sb = frac_sub(y1, y0);
            lemma_den_prod_pos(y1.den, y0.den);
            lemma_norm_eq(sb);
            let dy = nsub(y1, y0);
            let num = nsub(dy, bh);
            lemma_den_prod_pos(dy.den, bh.den);
            lemma_norm_eq(frac_sub(dy, bh));
            assert(frac_eq(num, frac_sub(dy, bh)) && num.den > 0);
            let d = frac_div(num, dx2);
            lemma_den_prod_pos(num.den, dx2.num);
            assert(frac_posden(d) == d);
            lemma_norm_eq(d);
            assert(frac_eq(cj, d));
            // cj * dx2 denotes dy - b h
            lemma_mul_cong_left(cj, d, dx2);
            lemma_div_mul_cancel(num, dx2);
            lemma_eq_trans(t2, frac_mul(cj, dx2), frac_mul(d, dx2));
            lemma_eq_trans(t2, frac_mul(d, dx2), num);
            lemma_eq_trans(t2, num, frac_sub(dy, bh));
            // and dy - b h cancels the b h inside v1
            lemma_add_cong_left(v1, v1r, t2);
            lemma_add_cong_right(v1r, t2, frac_sub(dy, bh));
            lemma_nonzero_prod(v1r.den, t2.den);
            lemma_regroup(y0, bh, dy);
            lemma_add_cong_right(y0, dy, sb);
            lemma_add_sub(y0, y1);
            lemma_nonzero_prod(y0.den, dy.den);
            lemma_nonzero_prod(y0.den, sb.den);
            lemma_eq_trans(v2, v2r, frac_add(v1, t2));
            lemma_eq_trans(v2, frac_add(v1, t2), frac_add(v1r, t2));
            lemma_eq_trans(v2, frac_add(v1r, t2), frac_add(v1r, frac_sub(dy, bh)));
            lemma_eq_trans(v2, frac_add(v1r, frac_sub(dy, bh)), frac_add(y0, dy));
            lemma_eq_trans(v2, frac_add(y0, dy), frac_add(y0, sb));
            lemma_eq_trans(v2, frac_add(y0, sb), y1);
        }
        assert(poly_at(c@.model, ks, frac_seq(c@.bs), frac_seq(c@.cs), frac_seq(c@.ds), j, h)
            == v2);
    }
}

} // verus!
