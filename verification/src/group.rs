//! Group-structure analysis of a curve: the group order by residue
//! counting, brute-force enumeration of all points, cyclic subgroups
//! generated by repeated addition, and the decomposition of the group
//! order into a largest cyclic-subgroup order and its cofactor.

use crate::curve::{EllipticCurve, Point};
use crate::prime::{legendre, legendre_spec};
use crate::Error;
use vstd::prelude::*;

verus! {

/// Strict lexicographic order on affine points, by abscissa then ordinate.
pub open spec fn lex_before(a: Point, b: Point) -> bool {
    match (a, b) {
        (Point::Affine(x0, y0), Point::Affine(x1, y1)) => x0 < x1 || (x0 == x1 && y0 < y1),
        _ => false,
    }
}

impl EllipticCurve {
    /// The sum of the Legendre symbols of `rhs(x)` over `x` in `[0, n)`.
    pub open spec fn legendre_sum(self, n: int) -> int
        decreases n,
    {
        if n <= 0 {
            0
        } else {
            self.legendre_sum(n - 1) + legendre_spec(self.rhs_spec(n - 1), self.p())
        }
    }

    /// The number of points of the curve, by the residue-counting
    /// identity: `1 + p` plus the Legendre symbols of `rhs(x)` over all
    /// canonical `x`.
    pub open spec fn order_spec(self) -> int {
        1 + self.p() + self.legendre_sum(self.p())
    }

    /// The `n`-th element of the sequence generated by `g`: the canonical
    /// form of `g`, then repeatedly the sum with `g`.
    pub open spec fn chain(self, g: Point, n: nat) -> Point
        decreases n,
    {
        if n == 0 {
            self.canon_spec(g)
        } else {
            self.sum_spec(g, self.chain(g, (n - 1) as nat))
        }
    }

    /// The generated sequence reaches the identity for the first time at
    /// position `n - 1`; `n` is then the order of `g`.
    pub open spec fn cycle_len_is(self, g: Point, n: nat) -> bool {
        &&& n >= 1
        &&& self.chain(g, (n - 1) as nat) == Point::Inf
        &&& forall|i: nat| i < n - 1 ==> self.chain(g, i) != Point::Inf
    }

    proof fn lemma_legendre_sum_bound(self, n: int)
        requires
            n >= 0,
        ensures
            -n <= self.legendre_sum(n) <= n,
        decreases n,
    {
        if n > 0 {
            self.lemma_legendre_sum_bound(n - 1);
        }
    }

    /// A generator has only one order.
    pub proof fn lemma_cycle_len_unique(self, g: Point, n1: nat, n2: nat)
        requires
            self.cycle_len_is(g, n1),
            self.cycle_len_is(g, n2),
        ensures
            n1 == n2,
    {
        if n1 < n2 {
            assert(self.chain(g, (n1 - 1) as nat) != Point::Inf);
        }
        if n2 < n1 {
            assert(self.chain(g, (n2 - 1) as nat) != Point::Inf);
        }
    }

    /// The group order, via the Legendre-symbol sum: each abscissa
    /// contributes points according to the residue character of `rhs(x)`.
    pub fn order(&self) -> (r: Result<i32, Error>)
        requires
            self.wf(),
            self.prime <= 0x3fff_ffff,
        ensures
            r == Ok::<i32, Error>(self.order_spec() as i32),
    {
        let p = self.prime;
        let mut ord: i64 = 1 + p as i64;
        let mut i: i32 = 0;
        while i < p
            invariant
                self.wf(),
                p == self.prime,
                0 <= i <= p,
                p <= 0x3fff_ffff,
                ord == 1 + self.p() + self.legendre_sum(i as int),
                1 + self.p() - i <= ord <= 1 + self.p() + i,
            decreases p - i,
        {
            let rv = match self.rhs(i) {
                Ok(v) => v,
                Err(e) => {
                    return Err(e);
                },
            };
            let lv = match legendre(rv, p) {
                Ok(v) => v,
                Err(e) => {
                    return Err(e);
                },
            };
            ord = ord + lv as i64;
            i += 1;
        }
        proof {
            self.lemma_legendre_sum_bound(self.p());
        }
        Ok(ord as i32)
    }

    /// The cyclic subgroup generated by a point of the curve: its
    /// canonical form, then repeated sums with the generator, ending with
    /// the first occurrence of the identity. The iteration is capped just
    /// above the number of points of the curve; a generator whose order
    /// is within that cap — every generator, by Lagrange's theorem, which
    /// this development does not prove — is served successfully, and the
    /// success clause below says so under that order bound.
    pub fn cyclic_group(&self, generator: Point) -> (r: Result<Vec<Point>, Error>)
        requires
            self.wf(),
        ensures
            !self.on_curve(generator) ==> r == Err::<Vec<Point>, Error>(Error::NotOnCurve),
            generator == Point::Inf ==> (r matches Ok(v) && v@.len() == 1),
            self.on_curve(generator) && (exists|n: nat|
                n <= 2 * self.p() + 1 && #[trigger] self.cycle_len_is(generator, n)) ==> (
            r matches Ok(_)),
            r matches Ok(v) ==> ({
                &&& self.on_curve(generator)
                &&& 1 <= v@.len() <= 2 * self.p() + 1
                &&& forall|i: int|
                    0 <= i < v@.len() ==> v@[i] == self.chain(generator, i as nat)
                &&& v@[v@.len() - 1] == Point::Inf
                &&& forall|i: int| 0 <= i < v@.len() - 1 ==> v@[i] != Point::Inf
            }),
    {
        if !self.is_on(generator) {
            return Err(Error::NotOnCurve);
        }
        if generator.is_inf() {
            let mut v: Vec<Point> = Vec::new();
            v.push(Point::Inf);
            return Ok(v);
        }
        let first = match self.represent(generator) {
            Ok(v) => v,
            Err(e) => {
                return Err(e);
            },
        };
        let mut cycle: Vec<Point> = Vec::new();
        cycle.push(first);
        proof {
            self.lemma_canon_on_curve(generator);
        }
        let mut fuel: i64 = 2 * (self.prime as i64);
        loop
            invariant
                self.wf(),
                self.on_curve(generator),
                !(generator matches Point::Inf),
                0 <= fuel,
                1 <= cycle@.len(),
                cycle@.len() + fuel == 2 * self.p() + 1,
                forall|i: int|
                    0 <= i < cycle@.len() ==> cycle@[i] == self.chain(generator, i as nat),
                forall|i: int| 0 <= i < cycle@.len() ==> cycle@[i] != Point::Inf,
                forall|i: int| 0 <= i < cycle@.len() ==> self.on_curve(#[trigger] cycle@[i]),
            decreases fuel,
        {
            if fuel == 0 {
                proof {
                    if exists|n: nat|
                        n <= 2 * self.p() + 1 && #[trigger] self.cycle_len_is(
                            generator,
                            n,
                        ) {
                        let n = choose|n: nat|
                            n <= 2 * self.p() + 1 && #[trigger] self.cycle_len_is(
                                generator,
                                n,
                            );
                        // the list holds only non-identity chain elements,
                        // so it is shorter than the generator's order and
                        // the fuel cannot have run out
                        assert(cycle@.len() <= n - 1) by {
                            if cycle@.len() > n - 1 {
                                assert(cycle@[n - 1] == self.chain(
                                    generator,
                                    (n - 1) as nat,
                                ));
                                assert(false);
                            }
                        }
                        assert(false);
                    }
                }
                return Err(Error::NotOnCurve);
            }
            fuel = fuel - 1;
            proof {
                crate::laws::lemma_sum_closed(
                    *self,
                    generator,
                    cycle@[cycle@.len() - 1],
                );
            }
            let last = cycle[cycle.len() - 1];
            let nxt = match self.sum(generator, last) {
                Ok(v) => v,
                Err(e) => {
                    return Err(e);
                },
            };
            proof {
                assert(nxt == self.chain(generator, cycle@.len() as nat));
            }
            cycle.push(nxt);
            if nxt.is_inf() {
                return Ok(cycle);
            }
        }
    }

    /// All points of the curve: the identity first, then every canonical
    /// affine solution of the curve equation, ascending by abscissa and
    /// then ordinate.
    pub fn solutions(&self) -> (r: Result<Vec<Point>, Error>)
        requires
            self.wf(),
        ensures
            r matches Ok(v) && ({
                &&& v@.len() >= 1
                &&& v@[0] == Point::Inf
                &&& forall|i: int|
                    1 <= i < v@.len() ==> ((#[trigger] v@[i]) matches Point::Affine(x, y)
                        && 0 <= x < self.prime && 0 <= y < self.prime && self.on_curve(
                        v@[i],
                    ))
                &&& forall|x: i32, y: i32|
                    0 <= x < self.prime && 0 <= y < self.prime && self.on_curve(
                        Point::Affine(x, y),
                    ) ==> v@.contains(Point::Affine(x, y))
                &&& forall|i: int, j: int| 1 <= i < j < v@.len() ==> lex_before(v@[i], v@[j])
            }),
    {
        let p = self.prime;
        let mut points: Vec<Point> = Vec::new();
        points.push(Point::Inf);
        let mut x: i32 = 0;
        while x < p
            invariant
                self.wf(),
                p == self.prime,
                0 <= x <= p,
                points@.len() >= 1,
                points@[0] == Point::Inf,
                forall|i: int|
                    1 <= i < points@.len() ==> ((#[trigger] points@[i]) matches Point::Affine(
                        a,
                        b,
                    ) && 0 <= a < x && 0 <= b < p && self.on_curve(points@[i])),
                forall|a: i32, b: i32|
                    0 <= a < x && 0 <= b < p && self.on_curve(Point::Affine(a, b))
                        ==> points@.contains(Point::Affine(a, b)),
                forall|i: int, j: int|
                    1 <= i < j < points@.len() ==> lex_before(points@[i], points@[j]),
            decreases p - x,
        {
            let rv = match self.rhs(x) {
                Ok(v) => v,
                Err(e) => {
                    return Err(e);
                },
            };
            let mut y: i32 = 0;
            while y < p
                invariant
                    self.wf(),
                    p == self.prime,
                    0 <= x < p,
                    0 <= y <= p,
                    rv == self.rhs_spec(x as int) as i32,
                    points@.len() >= 1,
                    points@[0] == Point::Inf,
                    forall|i: int|
                        1 <= i < points@.len() ==> ((#[trigger] points@[i]) matches
                        Point::Affine(a, b) && 0 <= a <= x && 0 <= b < p && self.on_curve(
                            points@[i],
                        ) && (a == x ==> b < y)),
                    forall|a: i32, b: i32|
                        ((0 <= a < x && 0 <= b < p) || (a == x && 0 <= b < y))
                            && self.on_curve(Point::Affine(a, b)) ==> points@.contains(
                            Point::Affine(a, b),
                        ),
                    forall|i: int, j: int|
                        1 <= i < j < points@.len() ==> lex_before(points@[i], points@[j]),
                decreases p - y,
            {
                let lv = match self.lhs(y) {
                    Ok(v) => v,
                    Err(e) => {
                        return Err(e);
                    },
                };
                let ghost old_points = points@;
                if lv == rv {
                    points.push(Point::Affine(x, y));
                }
                proof {
                    assert forall|a: i32, b: i32|
                        ((0 <= a < x && 0 <= b < p) || (a == x && 0 <= b < y + 1))
                            && self.on_curve(Point::Affine(a, b))
                        implies points@.contains(Point::Affine(a, b)) by {
                        if a == x && b == y {
                            assert(lv == rv);
                            assert(points@[points@.len() - 1] == Point::Affine(x, y));
                        } else {
                            assert(old_points.contains(Point::Affine(a, b)));
                            let k = choose|k: int|
                                0 <= k < old_points.len() && old_points[k] == Point::Affine(
                                    a,
                                    b,
                                );
                            assert(points@[k] == Point::Affine(a, b));
                        }
                    }
                }
                y += 1;
            }
            x += 1;
        }
        Ok(points)
    }

    /// Some point of the curve generates a cyclic subgroup of order `m`.
    pub open spec fn some_point_has_order(self, m: int) -> bool {
        exists|g: Point| self.on_curve(g) && #[trigger] self.cycle_len_is(g, m as nat)
    }

    /// Every canonical point of the curve generates a cycle no longer
    /// than the point-count bound. This holds of every curve — a cycle
    /// cannot outgrow the group, by Lagrange's theorem — but that theorem
    /// is not proved here, so `decomposition` promises success under this
    /// hypothesis.
    pub open spec fn all_orders_bounded(self) -> bool {
        forall|x: i32, y: i32|
            0 <= x < self.prime && 0 <= y < self.prime && #[trigger] self.on_curve(
                Point::Affine(x, y),
            ) ==> exists|n: nat|
                n <= 2 * self.p() + 1 && #[trigger] self.cycle_len_is(Point::Affine(x, y), n)
    }

    /// The group order factored as cofactor times the order of the
    /// largest cyclic subgroup, the latter found by exhaustive search over
    /// all points of the curve.
    #[verifier::rlimit(60)]
    pub fn decomposition(&self) -> (r: Result<(i32, i32), Error>)
        requires
            self.wf(),
            self.prime <= 0x3fff_ffff,
        ensures
            r matches Ok(dm) ==> dm.1 >= 1,
            r matches Ok(dm) ==> self.some_point_has_order(dm.1 as int),
            r matches Ok(dm) ==> forall|g: Point, n: nat|
                self.on_curve(g) && self.canon_spec(g) == g && #[trigger] self.cycle_len_is(
                    g,
                    n,
                ) ==> n <= dm.1 as nat,
            r matches Ok(dm) ==> dm.0 == self.order_spec() / (dm.1 as int),
            self.all_orders_bounded() ==> (r matches Ok(_)),
    {
        let sols = match self.solutions() {
            Ok(v) => v,
            Err(e) => {
                return Err(e);
            },
        };
        let mut max_len: i32 = 0;
        let mut idx: usize = 0;
        while idx < sols.len()
            invariant
                self.wf(),
                self.prime <= 0x3fff_ffff,
                0 <= idx <= sols@.len(),
                sols@.len() >= 1,
                sols@[0] == Point::Inf,
                forall|i: int| 0 <= i < sols@.len() ==> self.on_curve(#[trigger] sols@[i]),
                forall|i: int|
                    1 <= i < sols@.len() ==> ((#[trigger] sols@[i]) matches Point::Affine(a, b)
                        && 0 <= a < self.prime && 0 <= b < self.prime),
                forall|a: i32, b: i32|
                    0 <= a < self.prime && 0 <= b < self.prime && self.on_curve(
                        Point::Affine(a, b),
                    ) ==> sols@.contains(Point::Affine(a, b)),
                0 <= max_len <= 2 * self.p() + 1,
                idx >= 1 ==> max_len >= 1,
                max_len >= 1 ==> exists|g: Point|
                    self.on_curve(g) && #[trigger] self.cycle_len_is(g, max_len as nat),
                forall|k: int, n: nat|
                    0 <= k < idx && #[trigger] self.cycle_len_is(sols@[k], n) ==> n
                        <= max_len as nat,
            decreases sols@.len() - idx,
        {
            let sol = sols[idx];
            let cyc = match self.cyclic_group(sol) {
                Ok(v) => v,
                Err(e) => {
                    proof {
                        // under the order bound every generator in the list
                        // is served, so this exit cannot be reached then
                        if self.all_orders_bounded() {
                            if idx == 0 {
                                assert(self.cycle_len_is(Point::Inf, 1));
                                assert(1 <= 2 * self.p() + 1);
                            } else {
                                match sol {
                                    Point::Affine(a, b) => {
                                        assert(self.on_curve(Point::Affine(a, b)));
                                    },
                                    Point::Inf => {
                                        assert(false);
                                    },
                                }
                            }
                            assert(false);
                        }
                    }
                    return Err(e);
                },
            };
            proof {
                assert(cyc@.len() >= 1);
                assert(cyc@[cyc@.len() - 1] == self.chain(sol, (cyc@.len() - 1) as nat));
                assert forall|i: nat| i < cyc@.len() - 1
                    implies self.chain(sol, i) != Point::Inf by {
                    assert(cyc@[i as int] == self.chain(sol, i));
                }
                assert(self.cycle_len_is(sol, cyc@.len() as nat));
            }
            let len32: i32 = cyc.len() as i32;
            let ghost old_max = max_len;
            if len32 > max_len {
                max_len = len32;
            }
            proof {
                assert forall|k: int, n: nat|
                    0 <= k < idx + 1 && #[trigger] self.cycle_len_is(sols@[k], n)
                    implies n <= max_len as nat by {
                    if k == idx {
                        self.lemma_cycle_len_unique(sol, n, cyc@.len() as nat);
                    } else {
                        assert(n <= old_max as nat);
                    }
                }
            }
            idx += 1;
        }
        let ord = match self.order() {
            Ok(v) => v,
            Err(e) => {
                return Err(e);
            },
        };
        proof {
            self.lemma_legendre_sum_bound(self.p());
            assert forall|g: Point, n: nat|
                self.on_curve(g) && self.canon_spec(g) == g && #[trigger] self.cycle_len_is(
                    g,
                    n,
                ) implies n <= max_len as nat by {
                match g {
                    Point::Affine(a, b) => {
                        assert(0 <= a < self.prime && 0 <= b < self.prime) by {
                            vstd::arithmetic::div_mod::lemma_mod_bound(a as int, self.p());
                            vstd::arithmetic::div_mod::lemma_mod_bound(b as int, self.p());
                        }
                        assert(sols@.contains(g));
                    },
                    Point::Inf => {
                        assert(sols@[0] == g);
                        assert(sols@.contains(g));
                    },
                }
                let k = choose|k: int| 0 <= k < sols@.len() && sols@[k] == g;
                assert(self.cycle_len_is(sols@[k], n));
            }
        }
        let cof = ord / max_len;
        proof {
            assert(max_len >= 1);
            let gw = choose|g: Point|
                self.on_curve(g) && #[trigger] self.cycle_len_is(g, max_len as nat);
            assert(self.on_curve(gw) && self.cycle_len_is(gw, max_len as nat));
            assert(self.some_point_has_order(max_len as int));
            assert(cof == self.order_spec() / (max_len as int));
        }
        Ok((cof, max_len))
    }
}

} // verus!
