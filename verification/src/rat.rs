//! Exact rational numbers.
//!
//! An executable rational is a pair of an `i64` numerator and a positive
//! `i64` denominator, kept reduced by the greatest common divisor.  Its
//! mathematical value is the ghost pair [`Frac`]; two such pairs denote the
//! same rational exactly when cross-multiplication agrees ([`frac_eq`]).
//! Every arithmetic operation computes the exact result in `i128`
//! intermediates, reduces it, and reports `None` precisely when the reduced
//! result does not fit the `i64` representation.

use vstd::prelude::*;
use vstd::arithmetic::div_mod::{
    lemma_fundamental_div_mod, lemma_fundamental_div_mod_converse, lemma_mod_self_0,
};
use vstd::math::abs;

verus! {

/// The mathematical value of a rational number: an unbounded numerator and
/// denominator.  Meaningful when the denominator is nonzero.
pub ghost struct Frac {
    pub num: int,
    pub den: int,
}

/// `a` and `b` denote the same rational number (by cross-multiplication).
pub open spec fn frac_eq(a: Frac, b: Frac) -> bool {
    a.num * b.den == b.num * a.den
}

/// The rational with integer value `i`.
pub open spec fn frac_int(i: int) -> Frac {
    Frac { num: i, den: 1 }
}

/// Exact sum, without reduction.
pub open spec fn frac_add(a: Frac, b: Frac) -> Frac {
    Frac { num: a.num * b.den + b.num * a.den, den: a.den * b.den }
}

/// Exact difference, without reduction.
pub open spec fn frac_sub(a: Frac, b: Frac) -> Frac {
    Frac { num: a.num * b.den - b.num * a.den, den: a.den * b.den }
}

/// Exact product, without reduction.
pub open spec fn frac_mul(a: Frac, b: Frac) -> Frac {
    Frac { num: a.num * b.num, den: a.den * b.den }
}

/// Exact quotient, without reduction.  Meaningful when `b.num != 0`.
pub open spec fn frac_div(a: Frac, b: Frac) -> Frac {
    Frac { num: a.num * b.den, den: a.den * b.num }
}

/// The same rational with its denominator made positive.
pub open spec fn frac_posden(q: Frac) -> Frac {
    if q.den < 0 {
        Frac { num: -q.num, den: -q.den }
    } else {
        q
    }
}

/// `a <= b` as rationals.  Meaningful when both denominators are positive.
pub open spec fn frac_le(a: Frac, b: Frac) -> bool {
    a.num * b.den <= b.num * a.den
}

/// `a < b` as rationals.  Meaningful when both denominators are positive.
pub open spec fn frac_lt(a: Frac, b: Frac) -> bool {
    a.num * b.den < b.num * a.den
}

/// Euclid's greatest common divisor.
pub open spec fn gcd(a: nat, b: nat) -> nat
    decreases b,
{
    if b == 0 {
        a
    } else {
        gcd(b, a % b)
    }
}

/// The reduced form of `q`: numerator and denominator divided by their
/// greatest common divisor.  Meaningful when `q.den > 0`.
pub open spec fn frac_norm(q: Frac) -> Frac {
    let g = gcd(abs(q.num), q.den as nat) as int;
    Frac { num: q.num / g, den: q.den / g }
}

/// The reduced form of `q` fits the executable representation.
pub open spec fn frac_fits(q: Frac) -> bool {
    &&& i64::MIN as int <= frac_norm(q).num <= i64::MAX as int
    &&& frac_norm(q).den <= i64::MAX as int
}

proof fn lemma_gcd_divides(a: nat, b: nat)
    requires
        b > 0,
    ensures
        gcd(a, b) > 0,
        a as int % (gcd(a, b) as int) == 0,
        b as int % (gcd(a, b) as int) == 0,
    decreases b,
{
    let g: int = gcd(a, b) as int;
    assert(gcd(a, b) == gcd(b, a % b));
    if a % b == 0 {
        assert(gcd(b, (a % b)) == b);
        lemma_mod_self_0(b as int);
        assert(a as int % (b as int) == 0);
    } else {
        lemma_gcd_divides(b, a % b);
        lemma_fundamental_div_mod(a as int, b as int);
        lemma_fundamental_div_mod(b as int, g);
        lemma_fundamental_div_mod((a % b) as int, g);
        let qab: int = a as int / b as int;
        let u: int = b as int / g;
        let v: int = (a % b) as int / g;
        assert(a as int == (u * qab + v) * g + 0) by (nonlinear_arith)
            requires
                a as int == b as int * qab + (a % b) as int,
                b as int == g * u,
                (a % b) as int == g * v,
        ;
        lemma_fundamental_div_mod_converse(a as int, g, u * qab + v, 0);
    }
}

/// Divisibility of both components by their greatest common divisor, as
/// exact product equations.
proof fn lemma_norm_parts(q: Frac)
    requires
        q.den > 0,
    ensures
        gcd(abs(q.num), q.den as nat) as int > 0,
        q.num == (gcd(abs(q.num), q.den as nat) as int) * frac_norm(q).num,
        q.den == (gcd(abs(q.num), q.den as nat) as int) * frac_norm(q).den,
{
    lemma_gcd_divides(abs(q.num), q.den as nat);
    let g: int = gcd(abs(q.num), q.den as nat) as int;
    lemma_fundamental_div_mod(q.num, g);
    lemma_fundamental_div_mod(q.den, g);
    if q.num >= 0 {
        assert(abs(q.num) as int == q.num);
        assert(q.num % g == 0);
    } else {
        assert(abs(q.num) as int == -q.num);
        assert((-q.num) % g == 0);
        lemma_fundamental_div_mod(-q.num, g);
        let m: int = (-q.num) / g;
        assert(q.num == (-m) * g + 0) by (nonlinear_arith)
            requires
                -q.num == g * m,
        ;
        lemma_fundamental_div_mod_converse(q.num, g, -m, 0);
        assert(q.num % g == 0);
    }
}

/// The reduced form denotes the same rational, keeps a positive
/// denominator, and keeps the numerator's sign.
pub proof fn lemma_norm_eq(q: Frac)
    requires
        q.den > 0,
    ensures
        frac_eq(frac_norm(q), q),
        frac_eq(q, frac_norm(q)),
        frac_norm(q).den > 0,
        frac_norm(q).num == 0 <==> q.num == 0,
        frac_norm(q).num > 0 <==> q.num > 0,
        frac_norm(q).num < 0 <==> q.num < 0,
{
    lemma_norm_parts(q);
    let g: int = gcd(abs(q.num), q.den as nat) as int;
    let k: int = frac_norm(q).num;
    let l: int = frac_norm(q).den;
    assert(l > 0 && (k == 0 <==> q.num == 0) && (k > 0 <==> q.num > 0) && (k < 0 <==> q.num < 0)
        && k * q.den == q.num * l) by (nonlinear_arith)
        requires
            q.num == g * k,
            q.den == g * l,
            q.den > 0,
            g > 0,
    ;
}

/// An exact rational number: a reduced `i64` numerator over a positive
/// `i64` denominator.
#[derive(Clone, Copy, PartialEq, Eq, Structural, Debug)]
pub struct Rat {
    num: i64,
    den: i64,
}

impl View for Rat {
    type V = Frac;

    closed spec fn view(&self) -> Frac {
        Frac { num: self.num as int, den: self.den as int }
    }
}

impl Rat {
    /// The denominator is positive, as every constructed value keeps it.
    pub open spec fn wf(self) -> bool {
        self@.den > 0
    }

    /// The numerator as stored.
    pub fn num(&self) -> (n: i64)
        ensures
            n as int == self@.num,
    {
        self.num
    }

    /// The denominator as stored.
    pub fn den(&self) -> (d: i64)
        ensures
            d as int == self@.den,
    {
        self.den
    }

    /// The rational with integer value `i`.
    pub fn from_int(i: i64) -> (r: Rat)
        ensures
            r.wf(),
            r@ == frac_int(i as int),
    {
        Rat { num: i, den: 1 }
    }

    /// The rational `num / den`, reduced; `None` when `den == 0`, or in
    /// the one corner where the reduced pair leaves `i64` (a numerator or
    /// denominator of `i64::MIN` that does not cancel).
    pub fn new(num: i64, den: i64) -> (r: Option<Rat>)
        ensures
            r is Some <==> den != 0 && frac_fits(frac_posden(Frac { num: num as int, den: den as int })),
            r is Some ==> r.unwrap().wf() && frac_eq(r.unwrap()@, Frac { num: num as int, den: den as int }),
    {
        if den == 0 {
            None
        } else if den > 0 {
            let r = try_build_rat(num as i128, den as i128);
            proof {
                let q = Frac { num: num as int, den: den as int };
                if r is Some {
                    lemma_norm_eq(q);
                }
            }
            r
        } else {
            let n128: i128 = -(num as i128);
            let d128: i128 = -(den as i128);
            let r = try_build_rat(n128, d128);
            proof {
                let q0 = Frac { num: num as int, den: den as int };
                let q = Frac { num: n128 as int, den: d128 as int };
                assert(q == frac_posden(q0));
                if r is Some {
                    lemma_norm_eq(q);
                    let t = r.unwrap()@;
                    assert(t.num * q0.den == q0.num * t.den) by (nonlinear_arith)
                        requires
                            t.num * q.den == q.num * t.den,
                            q.num == -q0.num,
                            q.den == -q0.den,
                    ;
                }
            }
            r
        }
    }

    /// Exact sum; `None` exactly when the reduced result leaves `i64`.
    pub fn add(&self, other: &Rat) -> (r: Option<Rat>)
        requires
            self.wf(),
            other.wf(),
        ensures
            match r {
                Some(t) => t.wf() && t@ == frac_norm(frac_add(self@, other@)) && frac_fits(
                    frac_add(self@, other@),
                ),
                None => !frac_fits(frac_add(self@, other@)),
            },
    {
        proof {
            lemma_prod_with_den_bound(self@.num, other@.den);
            lemma_prod_with_den_bound(other@.num, self@.den);
            lemma_prod_with_den_bound(self@.den, other@.den);
            lemma_den_prod_pos(self@.den, other@.den);
        }
        let n: i128 = (self.num as i128) * (other.den as i128) + (other.num as i128) * (self.den as i128);
        let d: i128 = (self.den as i128) * (other.den as i128);
        try_build_rat(n, d)
    }

    /// Exact difference; `None` exactly when the reduced result leaves `i64`.
    pub fn sub(&self, other: &Rat) -> (r: Option<Rat>)
        requires
            self.wf(),
            other.wf(),
        ensures
            match r {
                Some(t) => t.wf() && t@ == frac_norm(frac_sub(self@, other@)) && frac_fits(
                    frac_sub(self@, other@),
                ),
                None => !frac_fits(frac_sub(self@, other@)),
            },
    {
        proof {
            lemma_prod_with_den_bound(self@.num, other@.den);
            lemma_prod_with_den_bound(other@.num, self@.den);
            lemma_prod_with_den_bound(self@.den, other@.den);
            lemma_den_prod_pos(self@.den, other@.den);
        }
        let n: i128 = (self.num as i128) * (other.den as i128) - (other.num as i128) * (self.den as i128);
        let d: i128 = (self.den as i128) * (other.den as i128);
        try_build_rat(n, d)
    }

    /// Exact product; `None` exactly when the reduced result leaves `i64`.
    pub fn mul(&self, other: &Rat) -> (r: Option<Rat>)
        requires
            self.wf(),
            other.wf(),
        ensures
            match r {
                Some(t) => t.wf() && t@ == frac_norm(frac_mul(self@, other@)) && frac_fits(
                    frac_mul(self@, other@),
                ),
                None => !frac_fits(frac_mul(self@, other@)),
            },
    {
        proof {
            lemma_i64_prod_bound(self@.num, other@.num);
            lemma_den_prod_pos(self@.den, other@.den);
            lemma_prod_with_den_bound(self@.den, other@.den);
        }
        let n: i128 = (self.num as i128) * (other.num as i128);
        let d: i128 = (self.den as i128) * (other.den as i128);
        try_build_rat(n, d)
    }

    /// Exact quotient by a rational with nonzero numerator; `None` exactly
    /// when the reduced result leaves `i64`.
    pub fn div(&self, other: &Rat) -> (r: Option<Rat>)
        requires
            self.wf(),
            other.wf(),
            other@.num != 0,
        ensures
            match r {
                Some(t) => t.wf() && frac_eq(t@, frac_div(self@, other@)) && t@ == frac_norm(
                    frac_posden(frac_div(self@, other@)),
                ) && frac_fits(frac_posden(frac_div(self@, other@))),
                None => !frac_fits(frac_posden(frac_div(self@, other@))),
            },
    {
        proof {
            lemma_prod_with_den_bound(self@.num, other@.den);
            lemma_i64_prod_bound(self@.den, other@.num);
            assert((self@.den) * (other@.num) != 0 && ((self@.den) * (other@.num) > 0 || (self@.den)
                * (other@.num) < 0)) by (nonlinear_arith)
                requires
                    self@.den > 0,
                    other@.num != 0,
            ;
        }
        let n: i128 = (self.num as i128) * (other.den as i128);
        let d: i128 = (self.den as i128) * (other.num as i128);
        let ghost q0 = frac_div(self@, other@);
        if d > 0 {
            let r = try_build_rat(n, d);
            proof {
                assert(frac_posden(q0) == Frac { num: n as int, den: d as int });
                if r is Some {
                    lemma_norm_eq(frac_posden(q0));
                }
            }
            r
        } else {
            let r = try_build_rat(-n, -d);
            proof {
                let q = Frac { num: -(n as int), den: -(d as int) };
                assert(frac_posden(q0) == q);
                if r is Some {
                    lemma_norm_eq(q);
                    let t = r.unwrap()@;
                    assert(t.num * q0.den == q0.num * t.den) by (nonlinear_arith)
                        requires
                            t.num * q.den == q.num * t.den,
                            q.num == -q0.num,
                            q.den == -q0.den,
                    ;
                }
            }
            r
        }
    }

    /// `self <= other` as rational numbers.
    pub fn le(&self, other: &Rat) -> (b: bool)
        requires
            self.wf(),
            other.wf(),
        ensures
            b == frac_le(self@, other@),
    {
        proof {
            lemma_prod_with_den_bound(self@.num, other@.den);
            lemma_prod_with_den_bound(other@.num, self@.den);
        }
        (self.num as i128) * (other.den as i128) <= (other.num as i128) * (self.den as i128)
    }

    /// `self < other` as rational numbers.
    pub fn lt(&self, other: &Rat) -> (b: bool)
        requires
            self.wf(),
            other.wf(),
        ensures
            b == frac_lt(self@, other@),
    {
        proof {
            lemma_prod_with_den_bound(self@.num, other@.den);
            lemma_prod_with_den_bound(other@.num, self@.den);
        }
        (self.num as i128) * (other.den as i128) < (other.num as i128) * (self.den as i128)
    }

    /// `self == other` as rational numbers.
    pub fn eq_val(&self, other: &Rat) -> (b: bool)
        requires
            self.wf(),
            other.wf(),
        ensures
            b == frac_eq(self@, other@),
    {
        proof {
            lemma_prod_with_den_bound(self@.num, other@.den);
            lemma_prod_with_den_bound(other@.num, self@.den);
        }
        (self.num as i128) * (other.den as i128) == (other.num as i128) * (self.den as i128)
    }

    /// The numerator is zero, that is, the value is zero.
    pub fn is_zero(&self) -> (b: bool)
        ensures
            b == (self@.num == 0),
    {
        self.num == 0
    }
}

proof fn lemma_i64_prod_bound(a: int, b: int) by (nonlinear_arith)
    requires
        i64::MIN as int <= a <= i64::MAX as int,
        i64::MIN as int <= b <= i64::MAX as int,
    ensures
        -0x4000_0000_0000_0000_0000_0000_0000_0000 <= a * b <= 0x4000_0000_0000_0000_0000_0000_0000_0000,
{
}

proof fn lemma_prod_with_den_bound(a: int, b: int) by (nonlinear_arith)
    requires
        i64::MIN as int <= a <= i64::MAX as int,
        0 < b <= i64::MAX as int,
    ensures
        -0x3fff_ffff_ffff_ffff_8000_0000_0000_0000 <= a * b <= 0x3fff_ffff_ffff_ffff_8000_0000_0000_0000,
{
}

pub proof fn lemma_den_prod_pos(a: int, b: int) by (nonlinear_arith)
    requires
        a > 0,
        b > 0,
    ensures
        a * b > 0,
{
}

/// Reduce `num / den` (with `den > 0`) into an `i64` rational, reporting
/// `None` exactly when the reduced form does not fit.
fn try_build_rat(num: i128, den: i128) -> (r: Option<Rat>)
    requires
        den > 0,
        num > i128::MIN,
    ensures
        match r {
            Some(t) => t.wf() && t@ == frac_norm(Frac { num: num as int, den: den as int })
                && frac_fits(Frac { num: num as int, den: den as int }),
            None => !frac_fits(Frac { num: num as int, den: den as int }),
        },
{
    let ghost q = Frac { num: num as int, den: den as int };
    let neg: bool = num < 0;
    let mag: u128 = if neg {
        (-num) as u128
    } else {
        num as u128
    };
    proof {
        assert(mag as nat == abs(q.num));
    }
    let g = gcd_u128(mag, den as u128);
    proof {
        lemma_gcd_divides(mag as nat, den as nat);
    }
    let nm: u128 = mag / g;
    let dn: u128 = (den as u128) / g;
    proof {
        let gi: int = g as int;
        lemma_fundamental_div_mod(mag as int, gi);
        lemma_fundamental_div_mod(den as int, gi);
        assert(mag as int == gi * (nm as int));
        assert(den as int == gi * (dn as int));
        assert(dn as int > 0) by (nonlinear_arith)
            requires
                den as int == (g as int) * (dn as int),
                den > 0,
                g as int > 0,
        ;
        if neg {
            assert(q.num == (-(nm as int)) * gi + 0) by (nonlinear_arith)
                requires
                    mag as int == gi * (nm as int),
                    q.num == -(mag as int),
            ;
            lemma_fundamental_div_mod_converse(q.num, gi, -(nm as int), 0);
            assert(frac_norm(q).num == -(nm as int));
        } else {
            assert(frac_norm(q).num == nm as int);
        }
        assert(frac_norm(q).den == dn as int);
    }
    if dn <= 0x7fff_ffff_ffff_ffff && (nm <= 0x7fff_ffff_ffff_ffff || (neg && nm
        == 0x8000_0000_0000_0000)) {
        let rn: i64 = if neg {
            (-(nm as i128)) as i64
        } else {
            nm as i64
        };
        let rd: i64 = dn as i64;
        Some(Rat { num: rn, den: rd })
    } else {
        None
    }
}

/// Euclid's algorithm on machine words.
fn gcd_u128(a: u128, b: u128) -> (g: u128)
    ensures
        g as nat == gcd(a as nat, b as nat),
{
    let mut x: u128 = a;
    let mut y: u128 = b;
    while y != 0
        invariant
            gcd(x as nat, y as nat) == gcd(a as nat, b as nat),
        decreases y,
    {
        let r: u128 = x % y;
        x = y;
        y = r;
    }
    x
}

/// Denoting the same rational is transitive, through a middle value with
/// nonzero denominator.
pub proof fn lemma_eq_trans(a: Frac, b: Frac, c: Frac) by (nonlinear_arith)
    requires
        frac_eq(a, b),
        frac_eq(b, c),
        b.den != 0,
    ensures
        frac_eq(a, c),
{
}

/// A product of nonzero integers is nonzero.
pub proof fn lemma_nonzero_prod(x: int, y: int) by (nonlinear_arith)
    requires
        x != 0,
        y != 0,
    ensures
        x * y != 0,
{
}

/// Adding a rational whose numerator is zero changes nothing.
pub proof fn lemma_add_zero(a: Frac, z: Frac) by (nonlinear_arith)
    requires
        z.num == 0,
        a.den != 0,
        z.den != 0,
    ensures
        frac_eq(frac_add(a, z), a),
        frac_add(a, z).den != 0,
{
}


/// Two rationals with the same mathematical pair are the same value.
pub proof fn lemma_view_injective(a: Rat, b: Rat)
    requires
        a@ == b@,
    ensures
        a == b,
{
}


/// Multiplying equal rationals by the same rational gives equal products.
pub proof fn lemma_mul_cong_left(a: Frac, a2: Frac, b: Frac)
    requires
        frac_eq(a, a2),
    ensures
        frac_eq(frac_mul(a, b), frac_mul(a2, b)),
{
    broadcast use vstd::arithmetic::mul::group_mul_properties;

}

/// Adding equal rationals to the same rational gives equal sums.
pub proof fn lemma_add_cong_right(a: Frac, b: Frac, b2: Frac)
    requires
        frac_eq(b, b2),
    ensures
        frac_eq(frac_add(a, b), frac_add(a, b2)),
{
    broadcast use vstd::arithmetic::mul::group_mul_properties;

}

/// Dividing by `h` and multiplying by `h` again returns to the start.
pub proof fn lemma_div_mul_cancel(a: Frac, h: Frac) by (nonlinear_arith)
    requires
        a.den != 0,
        h.den != 0,
        h.num != 0,
    ensures
        frac_eq(frac_mul(frac_div(a, h), h), a),
        frac_mul(frac_div(a, h), h).den != 0,
{
}

/// `a + (b - a) == b` for rationals.
pub proof fn lemma_add_sub(a: Frac, b: Frac) by (nonlinear_arith)
    requires
        a.den != 0,
        b.den != 0,
    ensures
        frac_eq(frac_add(a, frac_sub(b, a)), b),
        frac_add(a, frac_sub(b, a)).den != 0,
{
}


/// Adding the same rational to equal rationals gives equal sums.
pub proof fn lemma_add_cong_left(a: Frac, a2: Frac, b: Frac)
    requires
        frac_eq(a, a2),
    ensures
        frac_eq(frac_add(a, b), frac_add(a2, b)),
{
    broadcast use vstd::arithmetic::mul::group_mul_properties;

}

/// Addition of rationals is associative.
pub proof fn lemma_add_assoc(a: Frac, b: Frac, c: Frac)
    requires
        a.den != 0,
        b.den != 0,
        c.den != 0,
    ensures
        frac_eq(frac_add(frac_add(a, b), c), frac_add(a, frac_add(b, c))),
{
    broadcast use vstd::arithmetic::mul::group_mul_properties;

}

/// `(a + m) + (c - m) == a + c` for rationals.
pub proof fn lemma_regroup(a: Frac, m: Frac, c: Frac)
    requires
        a.den != 0,
        m.den != 0,
        c.den != 0,
    ensures
        frac_eq(frac_add(frac_add(a, m), frac_sub(c, m)), frac_add(a, c)),
        frac_add(frac_add(a, m), frac_sub(c, m)).den != 0,
        frac_add(a, c).den != 0,
{
    lemma_nonzero_prod(c.den, m.den);
    lemma_nonzero_prod(m.den, frac_sub(c, m).den);
    lemma_nonzero_prod(a.den, frac_add(m, frac_sub(c, m)).den);
    lemma_nonzero_prod(a.den, m.den);
    lemma_nonzero_prod(frac_add(a, m).den, frac_sub(c, m).den);
    lemma_nonzero_prod(a.den, c.den);
    lemma_add_assoc(a, m, frac_sub(c, m));
    lemma_add_sub(m, c);
    lemma_add_cong_right(a, frac_add(m, frac_sub(c, m)), c);
    lemma_eq_trans(
        frac_add(frac_add(a, m), frac_sub(c, m)),
        frac_add(a, frac_add(m, frac_sub(c, m))),
        frac_add(a, c),
    );
}

} // verus!
