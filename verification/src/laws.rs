//! Algebraic laws of the curve operations and the number-theoretic
//! primitives, stated over the specification functions that the
//! executable functions' contracts are written in.

use crate::curve::{cong, lemma_cong_add, lemma_cong_mul, lemma_cong_sub, EllipticCurve, Point};
use crate::prime::{gcd_rec, gcd_spec, lemma_prime_zero_divisor};
use vstd::arithmetic::div_mod::{
    lemma_mod_bound, lemma_mod_equivalence, lemma_mod_twice, lemma_mul_mod_noop_general,
    lemma_mul_mod_noop_left, lemma_mul_mod_noop_right, lemma_small_mod,
};
use vstd::arithmetic::power::{lemma_pow_mod_noop, pow};
use vstd::prelude::*;

verus! {

/// Congruent ordinates give the same left-hand side of the curve equation.
pub proof fn lemma_lhs_cong(c: EllipticCurve, y0: int, y1: int)
    requires
        c.wf(),
        cong(y0, y1, c.p()),
    ensures
        c.lhs_spec(y0) == c.lhs_spec(y1),
{
    lemma_cong_mul(y0, y1, y0, y1, c.p());
}

/// Congruent abscissas give the same right-hand side of the curve
/// equation.
pub proof fn lemma_rhs_cong(c: EllipticCurve, x0: int, x1: int)
    requires
        c.wf(),
        cong(x0, x1, c.p()),
    ensures
        c.rhs_spec(x0) == c.rhs_spec(x1),
{
    let p = c.p();
    lemma_cong_mul(x0, x1, x0, x1, p);
    lemma_cong_mul(x0 * x0, x1 * x1, x0, x1, p);
    lemma_cong_mul(c.coef1 as int, c.coef1 as int, x0, x1, p);
    lemma_cong_add(x0 * x0 * x0, x1 * x1 * x1, c.coef1 * x0, c.coef1 * x1, p);
    lemma_cong_add(
        x0 * x0 * x0 + c.coef1 * x0,
        x1 * x1 * x1 + c.coef1 * x1,
        c.coef0 as int,
        c.coef0 as int,
        p,
    );
}

/// Negating a point keeps it on the curve, and the sum of a point of the
/// curve and its negation is the identity.
pub proof fn lemma_sum_with_inverse(c: EllipticCurve, pt: Point)
    requires
        c.wf(),
        c.on_curve(pt),
    ensures
        c.on_curve(c.inv_spec(pt)),
        c.sum_spec(pt, c.inv_spec(pt)) == Point::Inf,
{
    let p = c.p();
    match pt {
        Point::Inf => {},
        Point::Affine(xi, yi) => {
            let x = xi as int;
            let y = yi as int;
            let xr = x % p;
            let yn = (-y) % p;
            assert(0 <= xr < p && 0 <= yn < p) by {
                lemma_mod_bound(x, p);
                lemma_mod_bound(-y, p);
            }
            // the negation satisfies the curve equation
            assert(cong(yn, -y, p)) by {
                lemma_mod_twice(-y, p);
            }
            lemma_lhs_cong(c, yn, -y);
            assert((-y) * (-y) == y * y) by (nonlinear_arith);
            assert(c.lhs_spec(-y) == c.lhs_spec(y));
            assert(cong(xr, x, p)) by {
                lemma_mod_twice(x, p);
            }
            lemma_rhs_cong(c, xr, x);
            assert(c.on_curve(c.inv_spec(pt)));
            // the sum hits the mutual-inverse case and yields the identity
            assert(0int % p == 0) by {
                lemma_small_mod(0, p as nat);
            }
            lemma_cong_sub(x, x, xr, x, p);
            assert((x - xr) % p == 0);
            lemma_cong_add(y, y, yn, -y, p);
            assert((y + yn) % p == 0);
        },
    }
}

/// Negating twice canonicalizes: the negation of the negation of a point
/// of the curve is its canonical form.
pub proof fn lemma_inv_involution(c: EllipticCurve, pt: Point)
    requires
        c.wf(),
        c.on_curve(pt),
    ensures
        c.inv_spec(c.inv_spec(pt)) == c.canon_spec(pt),
{
    let p = c.p();
    match pt {
        Point::Inf => {},
        Point::Affine(xi, yi) => {
            let x = xi as int;
            let y = yi as int;
            let xr = x % p;
            let yn = (-y) % p;
            assert(0 <= xr < p && 0 <= yn < p) by {
                lemma_mod_bound(x, p);
                lemma_mod_bound(-y, p);
            }
            assert(xr % p == xr) by {
                lemma_mod_twice(x, p);
            }
            assert(cong(yn, -y, p)) by {
                lemma_mod_twice(-y, p);
            }
            lemma_cong_sub(0, 0, yn, -y, p);
            assert((-yn) % p == y % p);
        },
    }
}

/// The identity law: adding the point at infinity on either side yields
/// the canonical form of the other operand.
pub proof fn lemma_identity_element(c: EllipticCurve, pt: Point)
    requires
        c.wf(),
        c.on_curve(pt),
    ensures
        c.sum_spec(Point::Inf, pt) == c.canon_spec(pt),
        c.sum_spec(pt, Point::Inf) == c.canon_spec(pt),
{
}

/// Commutativity of the group law: the sum of two points of the curve
/// does not depend on their order. In the chord case this rests on the
/// slope denominator raised to `p - 2` being a true modular inverse,
/// Fermat's little theorem.
pub proof fn lemma_sum_commutative(c: EllipticCurve, p0: Point, p1: Point)
    requires
        c.wf(),
        c.on_curve(p0),
        c.on_curve(p1),
    ensures
        c.sum_spec(p0, p1) == c.sum_spec(p1, p0),
{
    let p = c.p();
    match (p0, p1) {
        (Point::Inf, _) => {},
        (_, Point::Inf) => {},
        (Point::Affine(x0i, y0i), Point::Affine(x1i, y1i)) => {
            let x0 = x0i as int;
            let y0 = y0i as int;
            let x1 = x1i as int;
            let y1 = y1i as int;
            if (x0 - x1) % p != 0 {
                lemma_sum_commutative_chord(c, x0, y0, x1, y1);
            } else {
                lemma_sum_commutative_aligned(c, x0, y0, x1, y1);
            }
        },
    }
}

/// Commutativity in the cases where the operands share an abscissa
/// residue: mutual inverses cancel either way, and doubling sees
/// congruent coordinates on both sides.
proof fn lemma_sum_commutative_aligned(c: EllipticCurve, x0: int, y0: int, x1: int, y1: int)
    requires
        c.wf(),
        -0x8000_0000 <= x0 <= 0x7fff_ffff,
        -0x8000_0000 <= y0 <= 0x7fff_ffff,
        -0x8000_0000 <= x1 <= 0x7fff_ffff,
        -0x8000_0000 <= y1 <= 0x7fff_ffff,
        c.on_curve(Point::Affine(x0 as i32, y0 as i32)),
        c.on_curve(Point::Affine(x1 as i32, y1 as i32)),
        (x0 - x1) % c.p() == 0,
    ensures
        c.sum_spec(Point::Affine(x0 as i32, y0 as i32), Point::Affine(x1 as i32, y1 as i32))
            == c.sum_spec(
            Point::Affine(x1 as i32, y1 as i32),
            Point::Affine(x0 as i32, y0 as i32),
        ),
{
    let p = c.p();
    let p0 = Point::Affine(x0 as i32, y0 as i32);
    let p1 = Point::Affine(x1 as i32, y1 as i32);
    assert(0int % p == 0) by {
        lemma_small_mod(0, p as nat);
    }
    assert(cong(x0 - x1, 0, p));
    lemma_cong_sub(0, 0, x0 - x1, 0, p);
    assert((x1 - x0) % p == 0);
    assert(cong(x0, x1, p)) by {
        vstd::arithmetic::div_mod::lemma_mod_equivalence(x0, x1, p);
    }
    if (y0 + y1) % p == 0 {
        // both orders take the mutual-inverse case
        assert(c.sum_spec(p0, p1) == Point::Inf);
        assert(c.sum_spec(p1, p0) == Point::Inf);
    } else {
        // both orders double; the ordinates are congruent because
        // they square to the same value and their sum is a unit
        lemma_rhs_cong(c, x0, x1);
        assert(c.lhs_spec(y0) == c.lhs_spec(y1));
        let aa = (y0 - y1) % p;
        let bb = (y0 + y1) % p;
        assert(0 <= aa < p && 0 < bb < p) by {
            lemma_mod_bound(y0 - y1, p);
            lemma_mod_bound(y0 + y1, p);
        }
        assert(cong(aa, y0 - y1, p) && cong(bb, y0 + y1, p)) by {
            lemma_mod_twice(y0 - y1, p);
            lemma_mod_twice(y0 + y1, p);
        }
        lemma_cong_mul(aa, y0 - y1, bb, y0 + y1, p);
        assert((y0 - y1) * (y0 + y1) == y0 * y0 - y1 * y1) by (nonlinear_arith);
        lemma_cong_sub(y0 * y0, y0 * y0, y1 * y1, y1 * y1, p);
        assert((y0 * y0 - y1 * y1) % p == 0) by {
            vstd::arithmetic::div_mod::lemma_mod_equivalence(
                y0 * y0,
                y1 * y1,
                p,
            );
        }
        assert((aa * bb) % p == 0);
        if aa != 0 {
            lemma_prime_zero_divisor(p, aa, bb);
            assert(bb == 0) by {
                lemma_small_mod(bb as nat, p as nat);
            }
            assert(false);
        }
        assert(cong(y0, y1, p)) by {
            vstd::arithmetic::div_mod::lemma_mod_equivalence(y0, y1, p);
        }
        // the two tangent slopes agree
        let e = (p - 2) as nat;
        lemma_cong_mul(2, 2, y0, y1, p);
        lemma_pow_mod_noop(2 * y0, e, p);
        lemma_pow_mod_noop(2 * y1, e, p);
        assert(pow(2 * y0, e) % p == pow(2 * y1, e) % p);
        lemma_cong_mul(x0, x1, x0, x1, p);
        lemma_cong_mul(3, 3, x0 * x0, x1 * x1, p);
        assert(3 * (x0 * x0) == 3 * x0 * x0 && 3 * (x1 * x1) == 3 * x1 * x1) by {
            vstd::arithmetic::mul::lemma_mul_is_associative(3, x0, x0);
            vstd::arithmetic::mul::lemma_mul_is_associative(3, x1, x1);
        }
        lemma_cong_add(
            3 * x0 * x0,
            3 * x1 * x1,
            c.coef1 as int,
            c.coef1 as int,
            p,
        );
        let tt = pow(2 * y0, e) % p;
        assert(cong(tt, tt, p));
        lemma_cong_mul(
            3 * x0 * x0 + c.coef1 as int,
            3 * x1 * x1 + c.coef1 as int,
            tt,
            pow(2 * y1, e) % p,
            p,
        );
        let s = ((3 * x0 * x0 + c.coef1) * (pow(2 * y0, e) % p)) % p;
        let s1 = ((3 * x1 * x1 + c.coef1) * (pow(2 * y1, e) % p)) % p;
        assert(s == s1);
        // equal slopes and congruent coordinates give one result
        lemma_cong_mul(2, 2, x0, x1, p);
        lemma_cong_sub(s * s, s * s, 2 * x0, 2 * x1, p);
        let x3 = (s * s - 2 * x0) % p;
        assert(x3 == (s1 * s1 - 2 * x1) % p);
        lemma_cong_sub(x0, x1, x3, x3, p);
        lemma_cong_mul(s, s, x0 - x3, x1 - x3, p);
        lemma_cong_sub(s * (x0 - x3), s * (x1 - x3), y0, y1, p);
        assert((s * (x0 - x3) - y0) % p == (s1 * (x1 - x3) - y1) % p);
    }
}

/// Commutativity in the chord case, distinct abscissa residues: both
/// slopes multiply with the abscissa difference to the ordinate
/// difference, and that difference is invertible, so the slopes agree.
proof fn lemma_sum_commutative_chord(c: EllipticCurve, x0: int, y0: int, x1: int, y1: int)
    requires
        c.wf(),
        -0x8000_0000 <= x0 <= 0x7fff_ffff,
        -0x8000_0000 <= y0 <= 0x7fff_ffff,
        -0x8000_0000 <= x1 <= 0x7fff_ffff,
        -0x8000_0000 <= y1 <= 0x7fff_ffff,
        (x0 - x1) % c.p() != 0,
    ensures
        c.sum_spec(Point::Affine(x0 as i32, y0 as i32), Point::Affine(x1 as i32, y1 as i32))
            == c.sum_spec(
            Point::Affine(x1 as i32, y1 as i32),
            Point::Affine(x0 as i32, y0 as i32),
        ),
{
    let p = c.p();
    let e = (p - 2) as nat;
    let d = x1 - x0;
    assert(d % p != 0) by {
        lemma_mod_equivalence(x0, x1, p);
        lemma_mod_equivalence(x1, x0, p);
    }
    let t = pow(d, e) % p;
    let t2 = pow(-d, e) % p;
    // Fermat: both directed differences have modular inverses
    crate::fermat::lemma_fermat(d, p);
    crate::fermat::lemma_fermat(-d, p);
    lemma_mul_mod_noop_right(d, pow(d, e), p);
    assert((d * t) % p == 1);
    lemma_mul_mod_noop_right(-d, pow(-d, e), p);
    assert(((-d) * t2) % p == 1);
    let s1v = ((y1 - y0) * t) % p;
    let s2v = ((y0 - y1) * t2) % p;
    // each slope, multiplied by d, gives the ordinate difference
    lemma_mul_mod_noop_left((y1 - y0) * t, d, p);
    assert(((y1 - y0) * t) * d == (y1 - y0) * (t * d)) by (nonlinear_arith);
    assert(t * d == d * t) by (nonlinear_arith);
    lemma_mul_mod_noop_right(y1 - y0, t * d, p);
    assert((s1v * d) % p == ((y1 - y0) * 1) % p);
    lemma_mul_mod_noop_left((y0 - y1) * t2, d, p);
    assert(((y0 - y1) * t2) * d == (y1 - y0) * (t2 * (-d))) by (nonlinear_arith);
    assert(t2 * (-d) == (-d) * t2) by (nonlinear_arith);
    lemma_mul_mod_noop_right(y1 - y0, t2 * (-d), p);
    assert((s2v * d) % p == ((y1 - y0) * 1) % p);
    // hence the slopes are equal
    lemma_mod_bound((y1 - y0) * t, p);
    lemma_mod_bound((y0 - y1) * t2, p);
    lemma_mod_equivalence(s1v * d, s2v * d, p);
    assert(s1v * d - s2v * d == (s1v - s2v) * d) by (nonlinear_arith);
    let av = (s1v - s2v) % p;
    let dv = d % p;
    lemma_mod_bound(s1v - s2v, p);
    lemma_mod_bound(d, p);
    lemma_mul_mod_noop_general(s1v - s2v, d, p);
    assert((av * dv) % p == 0);
    if av != 0 {
        lemma_prime_zero_divisor(p, av, dv);
        lemma_small_mod(dv as nat, p as nat);
        assert(false);
    }
    assert(s1v == s2v) by {
        lemma_mod_equivalence(s1v, s2v, p);
        lemma_small_mod(s1v as nat, p as nat);
        lemma_small_mod(s2v as nat, p as nat);
    }
    // equal slopes give one abscissa, and the ordinates agree modulo p
    let x3 = (s1v * s1v - x0 - x1) % p;
    assert(x3 == (s2v * s2v - x1 - x0) % p);
    assert((s1v * (x0 - x3) - y0) - (s1v * (x1 - x3) - y1) == (y1 - y0) - s1v * d)
        by (nonlinear_arith)
        requires
            d == x1 - x0,
    ;
    assert(((y1 - y0) - s1v * d) % p == 0) by {
        lemma_mod_equivalence(y1 - y0, s1v * d, p);
    }
    assert((s1v * (x0 - x3) - y0) % p == (s1v * (x1 - x3) - y1) % p) by {
        lemma_mod_equivalence(s1v * (x0 - x3) - y0, s1v * (x1 - x3) - y1, p);
        assert((s1v * (x0 - x3) - y0) - (s1v * (x1 - x3) - y1) == (y1 - y0) - s1v * d)
            by (nonlinear_arith)
            requires
                d == x1 - x0,
        ;
    }
}

/// The curve cubic minus the square of the line `s*x + m`, evaluated at
/// `x`: zero modulo p exactly where the line meets the curve.
pub open spec fn line_gap(a: int, b: int, s: int, m: int, x: int) -> int {
    x * x * x + a * x + b - (s * x + m) * (s * x + m)
}

/// The quotient of that cubic by the linear factor `(x - v)`, evaluated
/// at `u`.
pub open spec fn line_gap_quot(a: int, s: int, m: int, u: int, v: int) -> int {
    u * u + u * v + v * v + a - (s * (s * (u + v)) + 2 * s * m)
}

proof fn lemma_mul_distrib3(w: int, q1: int, q2: int, q3: int)
    ensures
        w * q1 + w * q2 - w * q3 == w * (q1 + q2 - q3),
{
    assert(w * q1 + w * q2 - w * q3 == w * (q1 + q2 - q3)) by (nonlinear_arith);
}

/// Polynomial division of the line-gap cubic: the difference of its
/// values at two abscissas carries the linear factor of their difference.
proof fn lemma_line_gap_div(a: int, b: int, s: int, m: int, u: int, v: int)
    ensures
        line_gap(a, b, s, m, u) - line_gap(a, b, s, m, v) == (u - v) * line_gap_quot(
            a,
            s,
            m,
            u,
            v,
        ),
{
    let lu = s * u + m;
    let lv = s * v + m;
    assert(u * u * u - v * v * v == (u - v) * (u * u + u * v + v * v)) by (nonlinear_arith);
    assert(a * u - a * v == (u - v) * a) by (nonlinear_arith);
    assert(lu * lu - lv * lv == (u - v) * (s * (s * (u + v)) + 2 * s * m))
        by (nonlinear_arith)
        requires
            lu == s * u + m,
            lv == s * v + m,
    ;
    lemma_mul_distrib3(u - v, u * u + u * v + v * v, a, s * (s * (u + v)) + 2 * s * m);
}

/// Two quotients over the same lower abscissa differ by a multiple of
/// the difference of the upper abscissas.
proof fn lemma_line_gap_quot_diff(a: int, s: int, m: int, u1: int, u2: int, v: int)
    ensures
        line_gap_quot(a, s, m, u1, v) - line_gap_quot(a, s, m, u2, v) == (u1 - u2) * (u1
            + u2 + v - s * s),
{
    assert(u1 * u1 - u2 * u2 == (u1 - u2) * (u1 + u2)) by (nonlinear_arith);
    assert(u1 * v - u2 * v == (u1 - u2) * v) by (nonlinear_arith);
    assert(s * (s * (u1 + v)) - s * (s * (u2 + v)) == (u1 - u2) * (s * s))
        by (nonlinear_arith);
    lemma_mul_distrib3(u1 - u2, u1 + u2, v, s * s);
}

/// A vanishing line gap at an abscissa puts the negated line point on the
/// curve: the constructed ordinate is the negated line value there.
proof fn lemma_gap_on_curve(c: EllipticCurve, s: int, m: int, x0: int, y0: int, xx: int)
    requires
        c.wf(),
        y0 == s * x0 + m,
        line_gap(c.coef1 as int, c.coef0 as int, s, m, xx) % c.p() == 0,
    ensures
        c.on_curve(
            Point::Affine(
                ((xx % c.p()) as i32),
                (((s * (x0 - xx % c.p()) - y0) % c.p()) as i32),
            ),
        ),
{
    let p = c.p();
    let a = c.coef1 as int;
    let b = c.coef0 as int;
    let x3 = xx % p;
    let y3 = (s * (x0 - x3) - y0) % p;
    assert(0 <= x3 < p && 0 <= y3 < p) by {
        lemma_mod_bound(xx, p);
        lemma_mod_bound(s * (x0 - x3) - y0, p);
    }
    let lv = s * xx + m;
    // the ordinate is congruent to the negated line value
    assert(cong(x3, xx, p)) by {
        lemma_mod_twice(xx, p);
    }
    lemma_cong_sub(x0, x0, x3, xx, p);
    lemma_cong_mul(s, s, x0 - x3, x0 - xx, p);
    lemma_cong_sub(s * (x0 - x3), s * (x0 - xx), y0, y0, p);
    assert(cong(y3, s * (x0 - xx) - y0, p)) by {
        lemma_mod_twice(s * (x0 - x3) - y0, p);
    }
    assert(s * (x0 - xx) - y0 == -lv) by (nonlinear_arith)
        requires
            lv == s * xx + m,
            y0 == s * x0 + m,
    ;
    lemma_cong_mul(y3, -lv, y3, -lv, p);
    assert((-lv) * (-lv) == lv * lv) by (nonlinear_arith);
    // the vanishing gap equates the cubic with the squared line value
    assert((xx * xx * xx + a * xx + b) % p == (lv * lv) % p) by {
        lemma_mod_equivalence(xx * xx * xx + a * xx + b, lv * lv, p);
    }
    lemma_rhs_cong(c, x3, xx);
    assert(c.rhs_spec(xx) == (xx * xx * xx + a * xx + b) % p);
    assert(c.lhs_spec(y3) == (lv * lv) % p);
}

/// The line through a point of the curve with slope `s` and intercept
/// `m = y0 - s*x0` has a vanishing gap there.
proof fn lemma_gap_at_base(c: EllipticCurve, s: int, m: int, x0: int, y0: int)
    requires
        c.wf(),
        c.on_curve(Point::Affine(x0 as i32, y0 as i32)),
        -0x8000_0000 <= x0 <= 0x7fff_ffff,
        -0x8000_0000 <= y0 <= 0x7fff_ffff,
        y0 == s * x0 + m,
    ensures
        line_gap(c.coef1 as int, c.coef0 as int, s, m, x0) % c.p() == 0,
{
    let p = c.p();
    let a = c.coef1 as int;
    let b = c.coef0 as int;
    assert((s * x0 + m) * (s * x0 + m) == y0 * y0);
    assert(line_gap(a, b, s, m, x0) % p == 0) by {
        lemma_mod_equivalence(x0 * x0 * x0 + a * x0 + b, y0 * y0, p);
    }
}

/// The chord construction lands on the curve: for two points of the
/// curve with distinct abscissa residues, the negated third intersection
/// of their chord satisfies the curve equation. The chord is divided out
/// of the curve cubic twice; Fermat's little theorem makes the slope
/// denominator invertible.
proof fn lemma_chord_closure(c: EllipticCurve, x0: int, y0: int, x1: int, y1: int)
    requires
        c.wf(),
        c.on_curve(Point::Affine(x0 as i32, y0 as i32)),
        c.on_curve(Point::Affine(x1 as i32, y1 as i32)),
        -0x8000_0000 <= x0 <= 0x7fff_ffff,
        -0x8000_0000 <= y0 <= 0x7fff_ffff,
        -0x8000_0000 <= x1 <= 0x7fff_ffff,
        -0x8000_0000 <= y1 <= 0x7fff_ffff,
        (x0 - x1) % c.p() != 0,
    ensures
        c.on_curve(
            c.sum_spec(Point::Affine(x0 as i32, y0 as i32), Point::Affine(x1 as i32, y1 as i32)),
        ),
{
    let p = c.p();
    let a = c.coef1 as int;
    let b = c.coef0 as int;
    let e = (p - 2) as nat;
    let d = x1 - x0;
    assert(d % p != 0) by {
        lemma_mod_equivalence(x0, x1, p);
        lemma_mod_equivalence(x1, x0, p);
    }
    let t = pow(d, e) % p;
    crate::fermat::lemma_fermat(d, p);
    lemma_mul_mod_noop_right(d, pow(d, e), p);
    assert((d * t) % p == 1);
    let s = ((y1 - y0) * t) % p;
    lemma_mod_bound((y1 - y0) * t, p);
    // the slope times the abscissa difference is the ordinate difference
    lemma_mul_mod_noop_left((y1 - y0) * t, d, p);
    assert(((y1 - y0) * t) * d == (y1 - y0) * (t * d)) by (nonlinear_arith);
    assert(t * d == d * t) by (nonlinear_arith);
    lemma_mul_mod_noop_right(y1 - y0, t * d, p);
    assert((s * d) % p == (y1 - y0) % p);
    // the chord through the first point passes through the second
    let m = y0 - s * x0;
    lemma_gap_at_base(c, s, m, x0, y0);
    let l1 = s * x1 + m;
    assert(l1 - y1 == s * d - (y1 - y0)) by (nonlinear_arith)
        requires
            l1 == s * x1 + m,
            m == y0 - s * x0,
            d == x1 - x0,
    ;
    assert(l1 % p == y1 % p) by {
        lemma_mod_equivalence(s * d, y1 - y0, p);
        lemma_mod_equivalence(l1, y1, p);
    }
    assert(line_gap(a, b, s, m, x1) % p == 0) by {
        lemma_cong_mul(l1, y1, l1, y1, p);
        lemma_mod_equivalence(x1 * x1 * x1 + a * x1 + b, l1 * l1, p);
    }
    // divide the chord out at the first abscissa; the quotient vanishes
    // at the second, since the abscissa difference is a unit
    lemma_line_gap_div(a, b, s, m, x1, x0);
    let q1 = line_gap_quot(a, s, m, x1, x0);
    assert((d * q1) % p == 0) by {
        lemma_mod_equivalence(line_gap(a, b, s, m, x1), line_gap(a, b, s, m, x0), p);
    }
    let qr = q1 % p;
    let dv = d % p;
    lemma_mod_bound(q1, p);
    lemma_mod_bound(d, p);
    lemma_mul_mod_noop_general(d, q1, p);
    assert((dv * qr) % p == 0);
    if qr != 0 {
        lemma_prime_zero_divisor(p, dv, qr);
        lemma_small_mod(qr as nat, p as nat);
        assert(false);
    }
    // the sum abscissa is the third root of the gap cubic
    let xx = s * s - x0 - x1;
    lemma_line_gap_div(a, b, s, m, xx, x0);
    lemma_line_gap_quot_diff(a, s, m, xx, x1, x0);
    assert(xx + x1 + x0 - s * s == 0);
    assert((xx - x1) * (xx + x1 + x0 - s * s) == 0) by (nonlinear_arith)
        requires
            xx + x1 + x0 - s * s == 0,
    ;
    let q2 = line_gap_quot(a, s, m, xx, x0);
    assert(q2 == q1);
    assert(line_gap(a, b, s, m, xx) % p == 0) by {
        assert(((xx - x0) * q2) % p == 0) by {
            lemma_mul_mod_noop_right(xx - x0, q2, p);
            assert((xx - x0) * 0 == 0) by (nonlinear_arith);
            lemma_small_mod(0, p as nat);
        }
        vstd::arithmetic::div_mod::lemma_add_mod_noop(
            (xx - x0) * q2,
            line_gap(a, b, s, m, x0),
            p,
        );
        lemma_small_mod(0, p as nat);
    }
    lemma_gap_on_curve(c, s, m, x0, y0, xx);
    assert(c.sum_spec(
        Point::Affine(x0 as i32, y0 as i32),
        Point::Affine(x1 as i32, y1 as i32),
    ) == Point::Affine(((xx % p) as i32), (((s * (x0 - xx % p) - y0) % p) as i32)));
}

/// Two points of the curve that share an abscissa residue and whose
/// ordinate sum is a unit have congruent ordinates.
proof fn lemma_aligned_ordinates(c: EllipticCurve, x0: int, y0: int, x1: int, y1: int)
    requires
        c.wf(),
        c.on_curve(Point::Affine(x0 as i32, y0 as i32)),
        c.on_curve(Point::Affine(x1 as i32, y1 as i32)),
        -0x8000_0000 <= x0 <= 0x7fff_ffff,
        -0x8000_0000 <= y0 <= 0x7fff_ffff,
        -0x8000_0000 <= x1 <= 0x7fff_ffff,
        -0x8000_0000 <= y1 <= 0x7fff_ffff,
        (x0 - x1) % c.p() == 0,
        (y0 + y1) % c.p() != 0,
    ensures
        cong(y0, y1, c.p()),
{
    let p = c.p();
    assert(cong(x0, x1, p)) by {
        lemma_mod_equivalence(x0, x1, p);
    }
    lemma_rhs_cong(c, x0, x1);
    assert(c.lhs_spec(y0) == c.lhs_spec(y1));
    let aa = (y0 - y1) % p;
    let bb = (y0 + y1) % p;
    assert(0 <= aa < p && 0 < bb < p) by {
        lemma_mod_bound(y0 - y1, p);
        lemma_mod_bound(y0 + y1, p);
    }
    assert(cong(aa, y0 - y1, p) && cong(bb, y0 + y1, p)) by {
        lemma_mod_twice(y0 - y1, p);
        lemma_mod_twice(y0 + y1, p);
    }
    lemma_cong_mul(aa, y0 - y1, bb, y0 + y1, p);
    assert((y0 - y1) * (y0 + y1) == y0 * y0 - y1 * y1) by (nonlinear_arith);
    assert((y0 * y0 - y1 * y1) % p == 0) by {
        lemma_mod_equivalence(y0 * y0, y1 * y1, p);
    }
    assert((aa * bb) % p == 0);
    if aa != 0 {
        lemma_prime_zero_divisor(p, aa, bb);
        assert(bb == 0) by {
            lemma_small_mod(bb as nat, p as nat);
        }
        assert(false);
    }
    lemma_mod_equivalence(y0, y1, p);
}

/// The tangent construction lands on the curve: doubling a point of the
/// curve whose doubled ordinate is a unit satisfies the curve equation
/// again.
proof fn lemma_tangent_closure(c: EllipticCurve, x0: int, y0: int, x1: int, y1: int)
    requires
        c.wf(),
        c.on_curve(Point::Affine(x0 as i32, y0 as i32)),
        c.on_curve(Point::Affine(x1 as i32, y1 as i32)),
        -0x8000_0000 <= x0 <= 0x7fff_ffff,
        -0x8000_0000 <= y0 <= 0x7fff_ffff,
        -0x8000_0000 <= x1 <= 0x7fff_ffff,
        -0x8000_0000 <= y1 <= 0x7fff_ffff,
        (x0 - x1) % c.p() == 0,
        (y0 + y1) % c.p() != 0,
    ensures
        c.on_curve(
            c.sum_spec(Point::Affine(x0 as i32, y0 as i32), Point::Affine(x1 as i32, y1 as i32)),
        ),
{
    let p = c.p();
    let a = c.coef1 as int;
    let b = c.coef0 as int;
    let e = (p - 2) as nat;
    lemma_aligned_ordinates(c, x0, y0, x1, y1);
    lemma_cong_add(y0, y0, y1, y0, p);
    assert((2 * y0) % p != 0) by {
        assert(y0 + y0 == 2 * y0);
    }
    let t = pow(2 * y0, e) % p;
    crate::fermat::lemma_fermat(2 * y0, p);
    lemma_mul_mod_noop_right(2 * y0, pow(2 * y0, e), p);
    assert(((2 * y0) * t) % p == 1);
    let num = 3 * x0 * x0 + a;
    let s = (num * t) % p;
    lemma_mod_bound(num * t, p);
    // the slope times the doubled ordinate is the tangent numerator
    lemma_mul_mod_noop_left(num * t, 2 * y0, p);
    assert((num * t) * (2 * y0) == num * (t * (2 * y0))) by (nonlinear_arith);
    assert(t * (2 * y0) == (2 * y0) * t) by (nonlinear_arith);
    lemma_mul_mod_noop_right(num, t * (2 * y0), p);
    assert((s * (2 * y0)) % p == num % p);
    // the tangent through the point has a doubly vanishing gap
    let m = y0 - s * x0;
    lemma_gap_at_base(c, s, m, x0, y0);
    let q0 = line_gap_quot(a, s, m, x0, x0);
    assert(q0 == num - s * (2 * y0)) by (nonlinear_arith)
        requires
            q0 == x0 * x0 + x0 * x0 + x0 * x0 + a - (s * (s * (x0 + x0)) + 2 * s * m),
            m == y0 - s * x0,
            num == 3 * x0 * x0 + a,
    ;
    assert(q0 % p == 0) by {
        lemma_mod_equivalence(num, s * (2 * y0), p);
        lemma_mod_equivalence(q0, 0, p);
        lemma_small_mod(0, p as nat);
    }
    // the doubling abscissa is the second root of the gap cubic
    let xx = s * s - 2 * x0;
    lemma_line_gap_div(a, b, s, m, xx, x0);
    lemma_line_gap_quot_diff(a, s, m, xx, x0, x0);
    assert(xx + x0 + x0 - s * s == 0);
    assert((xx - x0) * (xx + x0 + x0 - s * s) == 0) by (nonlinear_arith)
        requires
            xx + x0 + x0 - s * s == 0,
    ;
    let q2 = line_gap_quot(a, s, m, xx, x0);
    assert(q2 == q0);
    assert(line_gap(a, b, s, m, xx) % p == 0) by {
        assert(((xx - x0) * q2) % p == 0) by {
            lemma_mul_mod_noop_right(xx - x0, q2, p);
            assert((xx - x0) * 0 == 0) by (nonlinear_arith);
            lemma_small_mod(0, p as nat);
        }
        vstd::arithmetic::div_mod::lemma_add_mod_noop(
            (xx - x0) * q2,
            line_gap(a, b, s, m, x0),
            p,
        );
        lemma_small_mod(0, p as nat);
    }
    lemma_gap_on_curve(c, s, m, x0, y0, xx);
    assert(c.sum_spec(
        Point::Affine(x0 as i32, y0 as i32),
        Point::Affine(x1 as i32, y1 as i32),
    ) == Point::Affine(((xx % p) as i32), (((s * (x0 - xx % p) - y0) % p) as i32)));
}

/// Closure of the group law: the sum of two points of the curve
/// satisfies the curve equation again.
pub proof fn lemma_sum_closed(c: EllipticCurve, p0: Point, p1: Point)
    requires
        c.wf(),
        c.on_curve(p0),
        c.on_curve(p1),
    ensures
        c.on_curve(c.sum_spec(p0, p1)),
{
    let p = c.p();
    match (p0, p1) {
        (Point::Inf, _) => {
            c.lemma_canon_on_curve(p1);
        },
        (_, Point::Inf) => {
            c.lemma_canon_on_curve(p0);
        },
        (Point::Affine(x0i, y0i), Point::Affine(x1i, y1i)) => {
            let x0 = x0i as int;
            let y0 = y0i as int;
            let x1 = x1i as int;
            let y1 = y1i as int;
            if (x0 - x1) % p != 0 {
                lemma_chord_closure(c, x0, y0, x1, y1);
            } else if (y0 + y1) % p != 0 {
                lemma_tangent_closure(c, x0, y0, x1, y1);
            }
        },
    }
}

/// The greatest common divisor with zero is the absolute value, and the
/// greatest common divisor of two zeros is zero.
pub proof fn lemma_gcd_zero(a: int)
    ensures
        gcd_spec(a, 0) == vstd::math::abs(a),
        gcd_spec(0, a) == vstd::math::abs(a),
        gcd_spec(0, 0) == 0,
{
    assert(gcd_rec(0, vstd::math::abs(a) as nat) == vstd::math::abs(a));
    assert(gcd_rec(0, 0) == 0);
}

/// Any base raised to the zeroth power is 1 modulo every modulus of at
/// least 2.
pub proof fn lemma_mod_pow_zero_exponent(x: int, m: int)
    requires
        m >= 2,
    ensures
        pow(x, 0) % m == 1,
{
    vstd::arithmetic::power::lemma_pow0(x);
    lemma_small_mod(1, m as nat);
}

} // verus!
