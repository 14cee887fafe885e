//! Elliptic curves `y^2 = x^3 + a*x + b` over a prime field, their points,
//! and the chord-and-tangent group law.

use crate::prime::{emod, is_prime, is_prime_spec, mod_pow};
use crate::Error;
use vstd::arithmetic::div_mod::{
    lemma_add_mod_noop, lemma_mod_twice, lemma_mul_mod_noop_general, lemma_small_mod,
    lemma_sub_mod_noop,
};
use vstd::arithmetic::power::{lemma_pow_mod_noop, pow};
use vstd::prelude::*;

verus! {

/// A point of a curve: the point at infinity (the identity of the group
/// law) or an affine coordinate pair. An affine point may carry any
/// representative of its residue classes; whether it lies on a given curve
/// is a property checked by the curve's operations, not enforced here.
#[derive(Clone, Copy, Debug, PartialEq, Eq, Structural)]
pub enum Point {
    Inf,
    Affine(i32, i32),
}

impl Point {
    /// Whether this point is the point at infinity.
    pub fn is_inf(&self) -> (b: bool)
        ensures
            b == (*self matches Point::Inf),
    {
        match self {
            Point::Inf => true,
            Point::Affine(_, _) => false,
        }
    }
}

/// A curve `y^2 = x^3 + coef1*x + coef0` modulo the prime `prime`, with
/// the coefficients stored reduced.
pub struct EllipticCurve {
    pub coef1: i32,
    pub coef0: i32,
    pub prime: i32,
}

/// Two integers are congruent modulo `m`.
pub open spec fn cong(a: int, b: int, m: int) -> bool {
    a % m == b % m
}

/// The product of two values in the `i32` range stays well inside `i64`.
pub(crate) proof fn lemma_i32_mul_fits(a: int, b: int)
    requires
        -0x8000_0000 <= a <= 0x7fff_ffff,
        -0x8000_0000 <= b <= 0x7fff_ffff,
    ensures
        -0x4000_0000_0000_0000 <= a * b <= 0x4000_0000_0000_0000,
{
    assert(-0x4000_0000_0000_0000 <= a * b <= 0x4000_0000_0000_0000) by (nonlinear_arith)
        requires
            -0x8000_0000 <= a <= 0x7fff_ffff,
            -0x8000_0000 <= b <= 0x7fff_ffff,
    ;
}

pub(crate) proof fn lemma_cong_mul(a: int, a2: int, b: int, b2: int, m: int)
    requires
        m >= 1,
        cong(a, a2, m),
        cong(b, b2, m),
    ensures
        cong(a * b, a2 * b2, m),
{
    lemma_mul_mod_noop_general(a, b, m);
    lemma_mul_mod_noop_general(a2, b2, m);
}

pub(crate) proof fn lemma_cong_add(a: int, a2: int, b: int, b2: int, m: int)
    requires
        m >= 1,
        cong(a, a2, m),
        cong(b, b2, m),
    ensures
        cong(a + b, a2 + b2, m),
{
    lemma_add_mod_noop(a, b, m);
    lemma_add_mod_noop(a2, b2, m);
}

pub(crate) proof fn lemma_cong_sub(a: int, a2: int, b: int, b2: int, m: int)
    requires
        m >= 1,
        cong(a, a2, m),
        cong(b, b2, m),
    ensures
        cong(a - b, a2 - b2, m),
{
    lemma_sub_mod_noop(a, b, m);
    lemma_sub_mod_noop(a2, b2, m);
}

impl EllipticCurve {
    /// The prime modulus as a mathematical integer.
    pub open spec fn p(self) -> int {
        self.prime as int
    }

    /// Well-formedness: the modulus is prime and the coefficients are
    /// canonical residues. Constructed curves satisfy this.
    pub open spec fn wf(self) -> bool {
        &&& is_prime_spec(self.p())
        &&& 0 <= self.coef1 < self.prime
        &&& 0 <= self.coef0 < self.prime
    }

    /// The left-hand side of the curve equation at `y`: `y^2 mod p`.
    pub open spec fn lhs_spec(self, y: int) -> int {
        (y * y) % self.p()
    }

    /// The right-hand side of the curve equation at `x`:
    /// `x^3 + coef1*x + coef0 mod p`.
    pub open spec fn rhs_spec(self, x: int) -> int {
        (x * x * x + self.coef1 * x + self.coef0) % self.p()
    }

    /// Whether a point satisfies the curve equation; infinity always does.
    pub open spec fn on_curve(self, pt: Point) -> bool {
        match pt {
            Point::Inf => true,
            Point::Affine(x, y) => self.lhs_spec(y as int) == self.rhs_spec(x as int),
        }
    }

    /// The canonical form of a point: affine coordinates reduced into
    /// `[0, p)`.
    pub open spec fn canon_spec(self, pt: Point) -> Point {
        match pt {
            Point::Inf => Point::Inf,
            Point::Affine(x, y) => Point::Affine(
                ((x as int) % self.p()) as i32,
                ((y as int) % self.p()) as i32,
            ),
        }
    }

    /// The group-law negation of a point, in canonical form.
    pub open spec fn inv_spec(self, pt: Point) -> Point {
        match pt {
            Point::Inf => Point::Inf,
            Point::Affine(x, y) => Point::Affine(
                ((x as int) % self.p()) as i32,
                ((-(y as int)) % self.p()) as i32,
            ),
        }
    }

    /// The chord-and-tangent sum of two points. The identity absorbs; two
    /// points with the same abscissa and opposite ordinates are mutual
    /// inverses; otherwise the line through the points (or the tangent,
    /// when doubling) meets the curve in a third point, whose negation is
    /// the sum. The modular inverse of the slope denominator is taken via
    /// Fermat's little theorem, raising to `p - 2`.
    pub open spec fn sum_spec(self, p0: Point, p1: Point) -> Point {
        let p = self.p();
        match (p0, p1) {
            (Point::Inf, _) => self.canon_spec(p1),
            (_, Point::Inf) => self.canon_spec(p0),
            (Point::Affine(x0i, y0i), Point::Affine(x1i, y1i)) => {
                let x0 = x0i as int;
                let y0 = y0i as int;
                let x1 = x1i as int;
                let y1 = y1i as int;
                if (x0 - x1) % p != 0 {
                    let s = ((y1 - y0) * (pow(x1 - x0, (p - 2) as nat) % p)) % p;
                    let x3 = (s * s - x0 - x1) % p;
                    let y3 = (s * (x0 - x3) - y0) % p;
                    Point::Affine(x3 as i32, y3 as i32)
                } else if (y0 + y1) % p == 0 {
                    Point::Inf
                } else {
                    let s = ((3 * x0 * x0 + self.coef1) * (pow(2 * y0, (p - 2) as nat) % p))
                        % p;
                    let x3 = (s * s - 2 * x0) % p;
                    let y3 = (s * (x0 - x3) - y0) % p;
                    Point::Affine(x3 as i32, y3 as i32)
                }
            },
        }
    }

    /// Validates the modulus and the coefficients, then stores the
    /// coefficients reduced modulo the prime.
    pub fn new(coef1: i32, coef0: i32, prime: i32) -> (r: Result<EllipticCurve, Error>)
        ensures
            prime <= 0 <==> r == Err::<EllipticCurve, Error>(Error::NotPositive),
            (1 <= prime && !is_prime_spec(prime as int)) <==> r == Err::<
                EllipticCurve,
                Error,
            >(Error::NotAPrime),
            (is_prime_spec(prime as int) && coef1 == 0 && coef0 == 0) <==> r == Err::<
                EllipticCurve,
                Error,
            >(Error::NotNonSingular),
            (is_prime_spec(prime as int) && !(coef1 == 0 && coef0 == 0)) ==> (r matches Ok(c)
                && c.prime == prime && c.coef1 as int == (coef1 as int) % (prime as int)
                && c.coef0 as int == (coef0 as int) % (prime as int) && c.wf()),
    {
        match is_prime(prime) {
            Err(e) => {
                return Err(e);
            },
            Ok(false) => {
                return Err(Error::NotAPrime);
            },
            Ok(true) => {},
        }
        if coef1 == 0 && coef0 == 0 {
            return Err(Error::NotNonSingular);
        }
        Ok(EllipticCurve {
            coef1: emod(coef1 as i64, prime),
            coef0: emod(coef0 as i64, prime),
            prime,
        })
    }

    /// The left-hand side of the curve equation, `y^2 mod p`.
    pub fn lhs(&self, y: i32) -> (r: Result<i32, Error>)
        requires
            self.wf(),
        ensures
            r == Ok::<i32, Error>(self.lhs_spec(y as int) as i32),
    {
        let v = match mod_pow(y, 2, self.prime) {
            Ok(v) => v,
            Err(e) => {
                return Err(e);
            },
        };
        proof {
            assert(pow(y as int, 2) == (y as int) * ((y as int) * 1)) by {
                reveal_with_fuel(pow, 3);
            }
        }
        Ok(v)
    }

    /// The right-hand side of the curve equation,
    /// `x^3 + coef1*x + coef0 mod p`.
    pub fn rhs(&self, x: i32) -> (r: Result<i32, Error>)
        requires
            self.wf(),
        ensures
            r == Ok::<i32, Error>(self.rhs_spec(x as int) as i32),
    {
        let cube = match mod_pow(x, 3, self.prime) {
            Ok(v) => v,
            Err(e) => {
                return Err(e);
            },
        };
        proof {
            lemma_i32_mul_fits(self.coef1 as int, x as int);
        }
        let ax = emod((self.coef1 as i64) * (x as i64), self.prime);
        let s: i64 = cube as i64 + ax as i64 + self.coef0 as i64;
        let v = emod(s, self.prime);
        proof {
            let xi = x as int;
            let p = self.p();
            assert(pow(xi, 3) == xi * (xi * (xi * 1))) by {
                reveal_with_fuel(pow, 4);
            }
            assert(cong(cube as int, xi * xi * xi, p)) by {
                lemma_mod_twice(pow(xi, 3), p);
            }
            assert(cong(ax as int, self.coef1 * xi, p)) by {
                lemma_mod_twice(self.coef1 * xi, p);
            }
            assert(cong(self.coef0 as int, self.coef0 as int, p));
            lemma_cong_add(cube as int, xi * xi * xi, ax as int, self.coef1 * xi, p);
            lemma_cong_add(
                cube as int + ax as int,
                xi * xi * xi + self.coef1 * xi,
                self.coef0 as int,
                self.coef0 as int,
                p,
            );
            assert(v == self.rhs_spec(xi));
        }
        Ok(v)
    }

    /// Whether a point satisfies the curve equation; coordinates are
    /// compared modulo the prime, so any representative is accepted.
    pub fn is_on(&self, point: Point) -> (b: bool)
        requires
            self.wf(),
        ensures
            b == self.on_curve(point),
    {
        match point {
            Point::Inf => true,
            Point::Affine(x, y) => {
                let l = match self.lhs(y) {
                    Ok(v) => v,
                    Err(_) => {
                        return false;
                    },
                };
                let r = match self.rhs(x) {
                    Ok(v) => v,
                    Err(_) => {
                        return false;
                    },
                };
                l == r
            },
        }
    }

    /// The canonical form of a point of the curve; rejects points that do
    /// not satisfy the curve equation.
    pub fn represent(&self, point: Point) -> (r: Result<Point, Error>)
        requires
            self.wf(),
        ensures
            self.on_curve(point) ==> r == Ok::<Point, Error>(self.canon_spec(point)),
            !self.on_curve(point) ==> r == Err::<Point, Error>(Error::NotOnCurve),
    {
        if !self.is_on(point) {
            return Err(Error::NotOnCurve);
        }
        match point {
            Point::Inf => Ok(Point::Inf),
            Point::Affine(x, y) => Ok(
                Point::Affine(emod(x as i64, self.prime), emod(y as i64, self.prime)),
            ),
        }
    }

    /// Canonicalizing a point neither adds it to nor removes it from the
    /// curve, and canonicalizing twice is the same as canonicalizing once.
    pub proof fn lemma_canon_on_curve(self, pt: Point)
        requires
            self.wf(),
        ensures
            self.on_curve(self.canon_spec(pt)) == self.on_curve(pt),
            self.canon_spec(self.canon_spec(pt)) == self.canon_spec(pt),
    {
        let p = self.p();
        match pt {
            Point::Inf => {},
            Point::Affine(xi, yi) => {
                let x = xi as int;
                let y = yi as int;
                let xr = x % p;
                let yr = y % p;
                assert(0 <= xr < p && 0 <= yr < p) by {
                    vstd::arithmetic::div_mod::lemma_mod_bound(x, p);
                    vstd::arithmetic::div_mod::lemma_mod_bound(y, p);
                }
                assert(cong(xr, x, p) && cong(yr, y, p)) by {
                    lemma_mod_twice(x, p);
                    lemma_mod_twice(y, p);
                }
                lemma_cong_mul(yr, y, yr, y, p);
                assert(self.lhs_spec(yr) == self.lhs_spec(y));
                lemma_cong_mul(xr, x, xr, x, p);
                lemma_cong_mul(xr * xr, x * x, xr, x, p);
                lemma_cong_mul(self.coef1 as int, self.coef1 as int, xr, x, p);
                lemma_cong_add(xr * xr * xr, x * x * x, self.coef1 * xr, self.coef1 * x, p);
                lemma_cong_add(
                    xr * xr * xr + self.coef1 * xr,
                    x * x * x + self.coef1 * x,
                    self.coef0 as int,
                    self.coef0 as int,
                    p,
                );
                assert(self.rhs_spec(xr) == self.rhs_spec(x));
                assert(self.canon_spec(self.canon_spec(pt)) == self.canon_spec(pt));
            },
        }
    }

    /// The chord-and-tangent sum of two points of the curve; rejects
    /// operands that do not satisfy the curve equation, and succeeds on
    /// all that do. Like the original construction, the computed point is
    /// checked against the curve equation at runtime; closure of the
    /// group law (`laws::lemma_sum_closed`) shows that check never fails.
    pub fn sum(&self, pt0: Point, pt1: Point) -> (r: Result<Point, Error>)
        requires
            self.wf(),
        ensures
            !(self.on_curve(pt0) && self.on_curve(pt1)) ==> r == Err::<Point, Error>(
                Error::NotOnCurve,
            ),
            self.on_curve(pt0) && self.on_curve(pt1) ==> r == Ok::<Point, Error>(
                self.sum_spec(pt0, pt1),
            ),
    {
        if !self.is_on(pt0) || !self.is_on(pt1) {
            return Err(Error::NotOnCurve);
        }
        match (pt0, pt1) {
            (Point::Inf, _) => {
                proof {
                    self.lemma_canon_on_curve(pt1);
                }
                self.represent(pt1)
            },
            (_, Point::Inf) => {
                proof {
                    self.lemma_canon_on_curve(pt0);
                }
                self.represent(pt0)
            },
            (Point::Affine(x0, y0), Point::Affine(x1, y1)) => {
                let p = self.prime;
                let pg: Ghost<int> = Ghost(self.p());
                let eg: Ghost<nat> = Ghost((self.p() - 2) as nat);
                let d0 = emod(x0 as i64 - x1 as i64, p);
                if d0 != 0 {
                    let dxr = emod(x1 as i64 - x0 as i64, p);
                    let t = match mod_pow(dxr, p - 2, p) {
                        Ok(v) => v,
                        Err(e) => {
                            return Err(e);
                        },
                    };
                    proof {
                        lemma_pow_mod_noop(x1 as int - x0 as int, eg@, pg@);
                        assert(t == pow(x1 as int - x0 as int, eg@) % pg@);
                    }
                    let yd = emod(y1 as i64 - y0 as i64, p);
                    proof {
                        lemma_i32_mul_fits(yd as int, t as int);
                    }
                    let s = emod((yd as i64) * (t as i64), p);
                    proof {
                        let tt = pow(x1 as int - x0 as int, eg@) % pg@;
                        assert(cong(yd as int, y1 as int - y0 as int, pg@)) by {
                            lemma_mod_twice(y1 as int - y0 as int, pg@);
                        }
                        lemma_cong_mul(
                            yd as int,
                            y1 as int - y0 as int,
                            t as int,
                            tt,
                            pg@,
                        );
                        assert(s == ((y1 as int - y0 as int) * tt) % pg@);
                    }
                    proof {
                        lemma_i32_mul_fits(s as int, s as int);
                    }
                    let x3 = emod(
                        (s as i64) * (s as i64) - (x0 as i64) - (x1 as i64),
                        p,
                    );
                    let xd = emod(x0 as i64 - x3 as i64, p);
                    proof {
                        lemma_i32_mul_fits(s as int, xd as int);
                    }
                    let y3 = emod((s as i64) * (xd as i64) - (y0 as i64), p);
                    proof {
                        assert(cong(xd as int, x0 as int - x3 as int, pg@)) by {
                            lemma_mod_twice(x0 as int - x3 as int, pg@);
                        }
                        lemma_cong_mul(
                            s as int,
                            s as int,
                            xd as int,
                            x0 as int - x3 as int,
                            pg@,
                        );
                        lemma_cong_sub(
                            (s as int) * (xd as int),
                            (s as int) * (x0 as int - x3 as int),
                            y0 as int,
                            y0 as int,
                            pg@,
                        );
                        assert(y3 == ((s as int) * (x0 as int - x3 as int) - y0 as int)
                            % pg@);
                        assert(Point::Affine(x3, y3) == self.sum_spec(pt0, pt1));
                        crate::laws::lemma_sum_closed(*self, pt0, pt1);
                    }
                    let candidate = Point::Affine(x3, y3);
                    if self.is_on(candidate) {
                        Ok(candidate)
                    } else {
                        Err(Error::NotOnCurve)
                    }
                } else {
                    let ysum = emod(y0 as i64 + y1 as i64, p);
                    if ysum == 0 {
                        return Ok(Point::Inf);
                    }
                    let xr = emod(x0 as i64, p);
                    let m1 = match mod_pow(xr, 2, p) {
                        Ok(v) => v,
                        Err(e) => {
                            return Err(e);
                        },
                    };
                    proof {
                        lemma_pow_mod_noop(x0 as int, 2, pg@);
                        assert(pow(x0 as int, 2) == (x0 as int) * ((x0 as int) * 1)) by {
                            reveal_with_fuel(pow, 3);
                        }
                        assert(cong(m1 as int, (x0 as int) * (x0 as int), pg@)) by {
                            lemma_mod_twice((x0 as int) * (x0 as int), pg@);
                        }
                    }
                    let num = emod(3 * (m1 as i64) + (self.coef1 as i64), p);
                    proof {
                        lemma_cong_mul(3, 3, m1 as int, (x0 as int) * (x0 as int), pg@);
                        assert(3 * ((x0 as int) * (x0 as int)) == 3 * (x0 as int) * (
                        x0 as int)) by {
                            vstd::arithmetic::mul::lemma_mul_is_associative(
                                3,
                                x0 as int,
                                x0 as int,
                            );
                        }
                        lemma_cong_add(
                            3 * (m1 as int),
                            3 * (x0 as int) * (x0 as int),
                            self.coef1 as int,
                            self.coef1 as int,
                            pg@,
                        );
                        lemma_mod_twice(3 * (m1 as int) + self.coef1 as int, pg@);
                        assert(cong(
                            num as int,
                            3 * (x0 as int) * (x0 as int) + self.coef1 as int,
                            pg@,
                        ));
                    }
                    let ty = emod(2 * (y0 as i64), p);
                    let t = match mod_pow(ty, p - 2, p) {
                        Ok(v) => v,
                        Err(e) => {
                            return Err(e);
                        },
                    };
                    proof {
                        lemma_pow_mod_noop(2 * (y0 as int), eg@, pg@);
                        assert(t == pow(2 * (y0 as int), eg@) % pg@);
                        lemma_i32_mul_fits(num as int, t as int);
                    }
                    let s = emod((num as i64) * (t as i64), p);
                    proof {
                        let tt = pow(2 * (y0 as int), eg@) % pg@;
                        lemma_cong_mul(
                            num as int,
                            3 * (x0 as int) * (x0 as int) + self.coef1 as int,
                            t as int,
                            tt,
                            pg@,
                        );
                        assert(s == ((3 * (x0 as int) * (x0 as int) + self.coef1 as int)
                            * tt) % pg@);
                    }
                    proof {
                        lemma_i32_mul_fits(s as int, s as int);
                    }
                    let x3 = emod(
                        (s as i64) * (s as i64) - 2 * (x0 as i64),
                        p,
                    );
                    let xd = emod(x0 as i64 - x3 as i64, p);
                    proof {
                        lemma_i32_mul_fits(s as int, xd as int);
                    }
                    let y3 = emod((s as i64) * (xd as i64) - (y0 as i64), p);
                    proof {
                        assert(cong(xd as int, x0 as int - x3 as int, pg@)) by {
                            lemma_mod_twice(x0 as int - x3 as int, pg@);
                        }
                        lemma_cong_mul(
                            s as int,
                            s as int,
                            xd as int,
                            x0 as int - x3 as int,
                            pg@,
                        );
                        lemma_cong_sub(
                            (s as int) * (xd as int),
                            (s as int) * (x0 as int - x3 as int),
                            y0 as int,
                            y0 as int,
                            pg@,
                        );
                        assert(y3 == ((s as int) * (x0 as int - x3 as int) - y0 as int)
                            % pg@);
                        assert(Point::Affine(x3, y3) == self.sum_spec(pt0, pt1));
                        crate::laws::lemma_sum_closed(*self, pt0, pt1);
                    }
                    let candidate = Point::Affine(x3, y3);
                    if self.is_on(candidate) {
                        Ok(candidate)
                    } else {
                        Err(Error::NotOnCurve)
                    }
                }
            },
        }
    }

    /// The group-law negation of a point of the curve, in canonical form;
    /// rejects points that do not satisfy the curve equation.
    pub fn inv(&self, point: Point) -> (r: Result<Point, Error>)
        requires
            self.wf(),
        ensures
            self.on_curve(point) ==> r == Ok::<Point, Error>(self.inv_spec(point)),
            !self.on_curve(point) ==> r == Err::<Point, Error>(Error::NotOnCurve),
    {
        if !self.is_on(point) {
            return Err(Error::NotOnCurve);
        }
        match point {
            Point::Inf => Ok(Point::Inf),
            Point::Affine(x, y) => Ok(
                Point::Affine(emod(x as i64, self.prime), emod(-(y as i64), self.prime)),
            ),
        }
    }
}

} // verus!
