use splinefit::rat::Rat;
use splinefit::spline::{build, BuildError, Curve, Model, Point};

fn ri(i: i64) -> Rat {
    Rat::from_int(i)
}

fn pt(x: i64, y: i64) -> Point {
    Point::new(ri(x), ri(y))
}

fn wave() -> Vec<Point> {
    vec![pt(-300, 0), pt(-150, 100), pt(0, -100), pt(150, 100), pt(300, 0)]
}

fn ev(c: &Curve, x: i64) -> Rat {
    c.evaluate(ri(x)).unwrap()
}

#[test]
fn build_rejects_empty_and_single_point() {
    let none: Vec<Point> = vec![];
    assert!(matches!(build(&none, Model::Cubic), Err(BuildError::InsufficientPoints)));
    let one = vec![pt(0, 0)];
    assert!(matches!(build(&one, Model::Linear), Err(BuildError::InsufficientPoints)));
    assert!(matches!(build(&one, Model::Quadratic), Err(BuildError::InsufficientPoints)));
}

#[test]
fn build_rejects_duplicate_x() {
    let dup = vec![pt(5, 1), pt(5, 2)];
    assert!(matches!(build(&dup, Model::Linear), Err(BuildError::DegenerateKnotSpacing)));
    let dup3 = vec![pt(-1, 0), pt(7, 3), pt(7, 4), pt(9, 1)];
    assert!(matches!(build(&dup3, Model::Cubic), Err(BuildError::DegenerateKnotSpacing)));
}

#[test]
fn cubic_scenario_wave() {
    let c = build(&wave(), Model::Cubic).unwrap();
    assert_eq!(ev(&c, 0), ri(-100));
    assert_eq!(ev(&c, -300), ri(0));
    assert_eq!(ev(&c, 300), ri(0));
    // extrapolation clamps flat to the last knot's y
    assert_eq!(ev(&c, 400), ri(0));
    // and flat to the first knot's y on the left
    assert_eq!(ev(&c, -400), ri(0));
}

#[test]
fn linear_scenario_wave() {
    let c = build(&wave(), Model::Linear).unwrap();
    // straight line between (-150,100) and (0,-100) at x=-75
    assert_eq!(ev(&c, -75), ri(0));
    // interior of the first segment
    assert_eq!(ev(&c, -225), ri(50));
}

#[test]
fn linear_extrapolates_its_trend() {
    let c = build(&wave(), Model::Linear).unwrap();
    // last segment's slope is (0-100)/150 = -2/3; at x=400: 0 + (-2/3)*100
    let expected = Rat::new(-200, 3).unwrap();
    assert_eq!(ev(&c, 400), expected);
    // first segment's slope is 100/150 = 2/3; at x=-450: 0 + (2/3)*(-150)
    assert_eq!(ev(&c, -450), ri(-100));
}

#[test]
fn build_sorts_unordered_points() {
    let pts = vec![pt(0, 5), pt(-10, 1), pt(10, 9)];
    for m in [Model::Linear, Model::Quadratic, Model::Cubic] {
        let c = build(&pts, m).unwrap();
        assert_eq!(ev(&c, -10), ri(1));
        assert_eq!(ev(&c, 10), ri(9));
        assert_eq!(c.knot(0), pt(-10, 1));
        assert_eq!(c.knot(1), pt(0, 5));
        assert_eq!(c.knot(2), pt(10, 9));
    }
}

#[test]
fn interpolates_every_knot_all_models() {
    let pts = wave();
    for m in [Model::Linear, Model::Quadratic, Model::Cubic] {
        let c = build(&pts, m).unwrap();
        for p in &pts {
            let v = c.evaluate(p.x).unwrap();
            assert!(v.eq_val(&p.y), "model {:?} missed a knot", m);
        }
    }
}

#[test]
fn rebuild_is_bit_identical() {
    let pts = wave();
    for m in [Model::Linear, Model::Quadratic, Model::Cubic] {
        let c1 = build(&pts, m).unwrap();
        let c2 = build(&pts, m).unwrap();
        for x in [-400, -300, -213, -75, 0, 99, 150, 287, 300, 500] {
            assert_eq!(c1.evaluate(ri(x)), c2.evaluate(ri(x)));
        }
    }
}

#[test]
fn cubic_second_derivative_continuous_and_natural() {
    let c = build(&wave(), Model::Cubic).unwrap();
    let n = c.knot_count();
    let two = ri(2);
    let six = ri(6);
    // second derivative of segment j at its right end: 2 c[j] + 6 d[j] h[j]
    for j in 0..n - 1 {
        let h = c.knot(j + 1).x.sub(&c.knot(j).x).unwrap();
        let left = two
            .mul(&c.coef_c(j))
            .unwrap()
            .add(&six.mul(&c.coef_d(j)).unwrap().mul(&h).unwrap())
            .unwrap();
        if j + 1 < n - 1 {
            // continuity across the interior knot j+1
            let right = two.mul(&c.coef_c(j + 1)).unwrap();
            assert!(left.eq_val(&right));
        } else {
            // natural boundary at the last knot
            assert!(left.is_zero());
        }
    }
    // natural boundary at the first knot
    assert!(c.coef_c(0).is_zero());
}

#[test]
fn quadratic_first_derivative_continuous() {
    let c = build(&wave(), Model::Quadratic).unwrap();
    let n = c.knot_count();
    let two = ri(2);
    // slope of segment j at its right end: b[j] + 2 c[j] h[j]
    for j in 0..n - 2 {
        let h = c.knot(j + 1).x.sub(&c.knot(j).x).unwrap();
        let left = c.coef_b(j).add(&two.mul(&c.coef_c(j)).unwrap().mul(&h).unwrap()).unwrap();
        assert!(left.eq_val(&c.coef_b(j + 1)));
    }
    // the first segment's curvature is forced to zero
    assert!(c.coef_c(0).is_zero());
}

#[test]
fn linear_values_lie_on_the_chord() {
    let pts = vec![pt(-7, 3), pt(2, 21), pt(11, -6)];
    let c = build(&pts, Model::Linear).unwrap();
    // inside segment 0 the value satisfies (v - y0) * (x1 - x0) == (y1 - y0) * (x - x0)
    for x in [-6, -4, -1, 0, 1] {
        let v = ev(&c, x);
        let lhs = v.sub(&ri(3)).unwrap().mul(&ri(9)).unwrap();
        let rhs = ri(18).mul(&ri(x).sub(&ri(-7)).unwrap()).unwrap();
        assert!(lhs.eq_val(&rhs));
    }
}

#[test]
fn rat_constructors_and_arithmetic() {
    assert!(Rat::new(1, 0).is_none());
    let half = Rat::new(2, 4).unwrap();
    assert_eq!(half.num(), 1);
    assert_eq!(half.den(), 2);
    let neg = Rat::new(3, -6).unwrap();
    assert_eq!(neg.num(), -1);
    assert_eq!(neg.den(), 2);
    let s = half.add(&neg).unwrap();
    assert!(s.is_zero());
    let p = Rat::new(2, 3).unwrap().mul(&Rat::new(9, 4).unwrap()).unwrap();
    assert_eq!(p, Rat::new(3, 2).unwrap());
    let q = Rat::new(7, 2).unwrap().div(&Rat::new(7, 4).unwrap()).unwrap();
    assert_eq!(q, ri(2));
    assert!(Rat::new(1, 3).unwrap().lt(&Rat::new(1, 2).unwrap()));
    assert!(Rat::new(2, 6).unwrap().eq_val(&Rat::new(1, 3).unwrap()));
}

#[test]
fn rat_overflow_reports_none() {
    let big = ri(i64::MAX);
    assert!(big.mul(&big).is_none());
    let tiny = Rat::new(1, i64::MAX).unwrap();
    assert!(tiny.mul(&tiny).is_none());
}

#[test]
fn rat_new_min_denominator_corners() {
    // -1 / 2^63 has no i64 representation with a positive denominator
    assert!(Rat::new(1, i64::MIN).is_none());
    // but i64::MIN / i64::MIN cancels to 1
    assert_eq!(Rat::new(i64::MIN, i64::MIN).unwrap(), ri(1));
}

#[test]
fn build_reports_overflow() {
    let y0 = Rat::new(1, i64::MAX).unwrap();
    let y1 = Rat::new(1, i64::MAX - 1).unwrap();
    let pts = vec![Point::new(ri(0), y0), Point::new(ri(1), y1)];
    assert!(matches!(build(&pts, Model::Linear), Err(BuildError::NumericOverflow)));
}

#[test]
fn evaluate_reports_overflow_only_where_arithmetic_runs() {
    let x0 = Rat::new(1, 3999999999).unwrap();
    let pts = vec![Point::new(x0, ri(0)), Point::new(ri(10), ri(20))];
    // x just below the first knot, with a denominator that cannot combine
    // with the first knot's within i64
    let x = Rat::new(1, 4000000001).unwrap();
    // the linear model extrapolates, so it must subtract the knot's x
    let lin = build(&pts, Model::Linear).unwrap();
    assert!(lin.evaluate(x).is_none());
    // the cubic model clamps flat there, with no arithmetic at all
    let cub = build(&pts, Model::Cubic).unwrap();
    assert_eq!(cub.evaluate(x), Some(ri(0)));
}

#[test]
fn evaluate_exactly_at_last_knot() {
    let pts = vec![pt(1, 4), pt(3, 8)];
    for m in [Model::Linear, Model::Quadratic, Model::Cubic] {
        let c = build(&pts, m).unwrap();
        assert_eq!(ev(&c, 3), ri(8));
    }
}

#[test]
fn two_point_curves_agree_on_the_segment() {
    let pts = vec![pt(0, 0), pt(10, 20)];
    let lin = build(&pts, Model::Linear).unwrap();
    let cub = build(&pts, Model::Cubic).unwrap();
    for x in [0, 1, 5, 9, 10] {
        assert!(ev(&lin, x).eq_val(&ev(&cub, x)));
    }
}
