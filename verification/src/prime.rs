//! Number-theoretic primitives: primality testing, prime factorization,
//! greatest common divisors, modular exponentiation, quadratic residues and
//! the Legendre symbol.

use crate::Error;
use vstd::arithmetic::div_mod::{
    lemma_fundamental_div_mod, lemma_mod_twice, lemma_mul_mod_noop_general,
};
use vstd::arithmetic::power::pow;
use vstd::prelude::*;

verus! {

/// Mathematical primality: `n` is at least 2 and has no divisor strictly
/// between 1 and itself.
pub open spec fn is_prime_spec(n: int) -> bool {
    n >= 2 && forall|d: int| 2 <= d < n ==> #[trigger] (n % d) != 0
}

/// Euclid's algorithm as a mathematical function on non-negative integers.
pub open spec fn gcd_rec(a: nat, b: nat) -> nat
    decreases a,
{
    if a == 0 {
        b
    } else {
        gcd_rec((b as int % a as int) as nat, a)
    }
}

/// The greatest common divisor of two arbitrary integers: Euclid's algorithm
/// on their absolute values, smaller first.
pub open spec fn gcd_spec(a: int, b: int) -> int {
    let aa = vstd::math::abs(a);
    let bb = vstd::math::abs(b);
    if aa <= bb {
        gcd_rec(aa as nat, bb as nat) as int
    } else {
        gcd_rec(bb as nat, aa as nat) as int
    }
}

/// Non-negative remainder of `a` modulo `m`, on wide integers.
fn emod64(a: i64, m: i64) -> (r: i64)
    requires
        1 <= m,
    ensures
        r == a as int % m as int,
        0 <= r < m,
{
    match a.checked_rem_euclid(m) {
        Some(r) => r,
        None => 0,
    }
}

/// Non-negative remainder of a wide intermediate value modulo a field-sized
/// modulus.
pub(crate) fn emod(a: i64, m: i32) -> (r: i32)
    requires
        1 <= m,
    ensures
        r == a as int % m as int,
        0 <= r < m,
{
    emod64(a, m as i64) as i32
}

/// Primality by trial division: 2 is handled specially, then odd candidate
/// divisors are tried up to the square root.
pub fn is_prime(n: i32) -> (r: Result<bool, Error>)
    ensures
        n <= 0 <==> r == Err::<bool, Error>(Error::NotPositive),
        n >= 1 ==> r == Ok::<bool, Error>(is_prime_spec(n as int)),
{
    if n <= 0 {
        return Err(Error::NotPositive);
    }
    if n == 1 {
        assert(!is_prime_spec(1));
        return Ok(false);
    }
    if n == 2 {
        assert(is_prime_spec(2)) by {
            assert(forall|d: int| 2 <= d < 2 ==> #[trigger] (2int % d) != 0);
        }
        return Ok(true);
    }
    if n % 2 == 0 {
        assert(n as int % 2 == 0);
        return Ok(false);
    }
    let mut odd: i32 = 3;
    loop
        invariant
            3 <= odd <= 46343,
            odd % 2 == 1,
            3 <= n,
            n % 2 != 0,
            forall|d: int| 2 <= d < odd ==> #[trigger] (n as int % d) != 0,
        ensures
            is_prime_spec(n as int),
        decreases n as int - odd,
    {
        proof {
            assert((odd as int) * (odd as int) <= 46343 * 46343) by (nonlinear_arith)
                requires
                    0 <= odd <= 46343,
            ;
        }
        if (odd as i64) * (odd as i64) > n as i64 {
            proof {
                lemma_no_divisor_below_root(n as int, odd as int);
            }
            break;
        }
        if n % odd == 0 {
            proof {
                assert(odd < n) by (nonlinear_arith)
                    requires
                        odd as int * odd as int <= n as int,
                        3 <= odd,
                        3 <= n,
                ;
            }
            return Ok(false);
        }
        proof {
            lemma_odd_step(n as int, odd as int);
            assert(odd <= 46341) by (nonlinear_arith)
                requires
                    odd as int * odd as int <= n as int,
                    n <= 0x7fff_ffff,
                    3 <= odd,
            ;
            assert(odd + 2 <= n) by (nonlinear_arith)
                requires
                    odd as int * odd as int <= n as int,
                    3 <= odd,
            ;
        }
        odd += 2;
    }
    Ok(true)
}

/// If an odd number has no divisor below `odd` and is not divisible by `odd`,
/// it has none below `odd + 2` either: the even candidate in between cannot
/// divide it.
proof fn lemma_odd_step(n: int, odd: int)
    requires
        3 <= odd,
        odd % 2 == 1,
        3 <= n,
        n % 2 != 0,
        forall|d: int| 2 <= d < odd ==> #[trigger] (n % d) != 0,
        n % odd != 0,
    ensures
        forall|d: int| 2 <= d < odd + 2 ==> #[trigger] (n % d) != 0,
{
    assert forall|d: int| 2 <= d < odd + 2 implies #[trigger] (n % d) != 0 by {
        if d == odd + 1 {
            assert(d % 2 == 0);
            if n % d == 0 {
                lemma_divisor_transitive(n, d, 2);
                assert(false);
            }
        }
    }
}

/// Divisibility is transitive: if `d` divides `n` and `e` divides `d`, then
/// `e` divides `n`.
proof fn lemma_divisor_transitive(n: int, d: int, e: int)
    requires
        1 <= e <= d,
        n % d == 0,
        d % e == 0,
    ensures
        n % e == 0,
{
    lemma_fundamental_div_mod(n, d);
    lemma_fundamental_div_mod(d, e);
    let k = n / d;
    let j = d / e;
    assert(n == (k * j) * e) by (nonlinear_arith)
        requires
            n == d * k + 0,
            d == e * j + 0,
    ;
    vstd::arithmetic::div_mod::lemma_mod_multiples_basic(k * j, e);
}

/// A number at least 2 with no divisor in `[2, bound)`, where `bound`
/// squared exceeds it, is prime: a larger divisor would have a cofactor
/// below `bound`.
proof fn lemma_no_divisor_below_root(n: int, bound: int)
    requires
        2 <= n,
        2 <= bound,
        bound * bound > n,
        forall|d: int| 2 <= d < bound ==> #[trigger] (n % d) != 0,
    ensures
        is_prime_spec(n),
{
    assert forall|d: int| 2 <= d < n implies #[trigger] (n % d) != 0 by {
        if d >= bound && n % d == 0 {
            lemma_fundamental_div_mod(n, d);
            let e = n / d;
            assert(n == d * e);
            assert(e >= 1) by (nonlinear_arith)
                requires
                    n == d * e,
                    2 <= d < n,
            ;
            assert(e >= 2) by (nonlinear_arith)
                requires
                    n == d * e,
                    2 <= d < n,
                    e >= 1,
            ;
            assert(e < bound) by (nonlinear_arith)
                requires
                    n == d * e,
                    d >= bound,
                    bound * bound > n,
                    e >= 1,
                    bound >= 2,
            ;
            assert(n % e == 0) by {
                vstd::arithmetic::div_mod::lemma_mod_multiples_basic(d, e);
            }
            assert(false);
        }
    }
}

/// The integer that a list of (prime, exponent) pairs multiplies out to.
pub open spec fn factor_prod(s: Seq<(i32, i32)>) -> int
    decreases s.len(),
{
    if s.len() == 0 {
        1
    } else {
        factor_prod(s.drop_last()) * pow(s.last().0 as int, s.last().1 as nat)
    }
}

/// `s` is the prime factorization of `n`: primes in strictly ascending
/// order, each with a positive exponent, multiplying out to `n`.
pub open spec fn valid_factorization(s: Seq<(i32, i32)>, n: int) -> bool {
    &&& factor_prod(s) == n
    &&& forall|i: int|
        0 <= i < s.len() ==> is_prime_spec(#[trigger] s[i].0 as int) && s[i].1 >= 1
    &&& forall|i: int| 0 <= i < s.len() - 1 ==> (#[trigger] s[i].0) < s[i + 1].0
}

proof fn lemma_factor_prod_push(s: Seq<(i32, i32)>, x: (i32, i32))
    ensures
        factor_prod(s.push(x)) == factor_prod(s) * pow(x.0 as int, x.1 as nat),
{
    assert(s.push(x).drop_last() =~= s);
    assert(s.push(x).last() == x);
}

/// Every factor list over primes with positive exponents has a positive
/// product, and each of its primes divides the product.
proof fn lemma_factor_prod_facts(s: Seq<(i32, i32)>)
    requires
        forall|i: int|
            0 <= i < s.len() ==> is_prime_spec(#[trigger] s[i].0 as int) && s[i].1 >= 1,
    ensures
        factor_prod(s) >= 1,
        forall|i: int| 0 <= i < s.len() ==> factor_prod(s) % (#[trigger] s[i].0 as int) == 0,
    decreases s.len(),
{
    if s.len() == 0 {
    } else {
        let rest = s.drop_last();
        let q = s.last().0 as int;
        let e = s.last().1 as nat;
        lemma_factor_prod_facts(rest);
        vstd::arithmetic::power::lemma_pow_positive(q, e);
        assert(factor_prod(s) >= 1) by (nonlinear_arith)
            requires
                factor_prod(s) == factor_prod(rest) * pow(q, e),
                factor_prod(rest) >= 1,
                pow(q, e) >= 1,
        ;
        assert(s[s.len() - 1] == s.last());
        assert(e >= 1);
        // the last prime divides its own power, hence the product
        assert(pow(q, e) == q * pow(q, (e - 1) as nat)) by {
            reveal(pow);
        }
        assert(factor_prod(s) == (factor_prod(rest) * pow(q, (e - 1) as nat)) * q)
            by (nonlinear_arith)
            requires
                factor_prod(s) == factor_prod(rest) * pow(q, e),
                pow(q, e) == q * pow(q, (e - 1) as nat),
        ;
        vstd::arithmetic::div_mod::lemma_mod_multiples_basic(
            factor_prod(rest) * pow(q, (e - 1) as nat),
            q,
        );
        // each earlier prime divides the smaller product, hence the whole
        assert forall|i: int|
            0 <= i < s.len() implies factor_prod(s) % (#[trigger] s[i].0 as int) == 0 by {
            if i < s.len() - 1 {
                assert(rest[i] == s[i]);
                let d = s[i].0 as int;
                lemma_fundamental_div_mod(factor_prod(rest), d);
                let k = factor_prod(rest) / d;
                assert(factor_prod(s) == (k * pow(q, e)) * d) by (nonlinear_arith)
                    requires
                        factor_prod(s) == factor_prod(rest) * pow(q, e),
                        factor_prod(rest) == d * k + 0,
                ;
                vstd::arithmetic::div_mod::lemma_mod_multiples_basic(k * pow(q, e), d);
            }
        }
    }
}

/// Trial division from 2 upward; any leftover factor greater than 1 after
/// the loop is itself prime and is appended with exponent 1.
#[verifier::rlimit(60)]
pub fn prime_factors(n: i32) -> (r: Result<Vec<(i32, i32)>, Error>)
    ensures
        n <= 0 <==> r == Err::<Vec<(i32, i32)>, Error>(Error::NotPositive),
        n >= 1 ==> (r matches Ok(v) && valid_factorization(v@, n as int)),
{
    match is_prime(n) {
        Err(e) => {
            return Err(e);
        },
        Ok(true) => {
            let mut v: Vec<(i32, i32)> = Vec::new();
            v.push((n, 1));
            proof {
                lemma_factor_prod_push(Seq::<(i32, i32)>::empty(), (n, 1));
                vstd::arithmetic::power::lemma_pow1(n as int);
                assert(v@ =~= Seq::<(i32, i32)>::empty().push((n, 1)));
            }
            return Ok(v);
        },
        Ok(false) => {},
    }
    if n == 1 {
        let v: Vec<(i32, i32)> = Vec::new();
        return Ok(v);
    }
    let mut res: Vec<(i32, i32)> = Vec::new();
    let mut ncur: i32 = n;
    let mut p: i32 = 2;
    loop
        invariant
            2 <= p <= 46342,
            1 <= ncur <= n,
            2 <= n <= i32::MAX,
            factor_prod(res@) * ncur == n,
            forall|i: int|
                0 <= i < res@.len() ==> is_prime_spec(#[trigger] res@[i].0 as int)
                    && res@[i].1 >= 1 && res@[i].0 < p,
            forall|i: int| 0 <= i < res@.len() - 1 ==> (#[trigger] res@[i].0) < res@[i + 1].0,
            forall|d: int| 2 <= d < p ==> #[trigger] (ncur as int % d) != 0,
        ensures
            (p as int) * (p as int) > n as int,
            2 <= p,
            1 <= ncur <= n,
            factor_prod(res@) * ncur == n,
            forall|i: int|
                0 <= i < res@.len() ==> is_prime_spec(#[trigger] res@[i].0 as int)
                    && res@[i].1 >= 1 && res@[i].0 < p,
            forall|i: int| 0 <= i < res@.len() - 1 ==> (#[trigger] res@[i].0) < res@[i + 1].0,
            forall|d: int| 2 <= d < p ==> #[trigger] (ncur as int % d) != 0,
        decreases n as int - p,
    {
        proof {
            assert((p as int) * (p as int) <= 46342 * 46342) by (nonlinear_arith)
                requires
                    0 <= p <= 46342,
            ;
        }
        if (p as i64) * (p as i64) > n as i64 {
            break;
        }
        if ncur % p == 0 {
            let ghost n_entry = ncur;
            let mut e: i32 = 0;
            proof {
                vstd::arithmetic::power::lemma_pow0(p as int);
            }
            while ncur % p == 0
                invariant
                    2 <= p <= 46342,
                    1 <= ncur,
                    0 <= e <= 31,
                    1 <= n_entry <= i32::MAX,
                    pow(p as int, e as nat) * ncur == n_entry,
                    pow(p as int, e as nat) <= n_entry,
                    e == 0 ==> ncur == n_entry,
                decreases ncur,
            {
                proof {
                    lemma_fundamental_div_mod(ncur as int, p as int);
                    assert(ncur / p >= 1 && ncur / p < ncur) by (nonlinear_arith)
                        requires
                            ncur as int == (p as int) * (ncur as int / p as int) + 0,
                            1 <= ncur,
                            2 <= p,
                    ;
                    let q = ncur as int / p as int;
                    assert(pow(p as int, (e + 1) as nat) == pow(p as int, e as nat) * (
                    p as int)) by {
                        vstd::arithmetic::power::lemma_pow_adds(p as int, e as nat, 1);
                        vstd::arithmetic::power::lemma_pow1(p as int);
                    }
                    assert(pow(p as int, (e + 1) as nat) * q == n_entry) by (nonlinear_arith)
                        requires
                            pow(p as int, (e + 1) as nat) == pow(p as int, e as nat) * (
                            p as int),
                            pow(p as int, e as nat) * ncur == n_entry,
                            ncur as int == (p as int) * q + 0,
                    ;
                    vstd::arithmetic::power::lemma_pow_positive(p as int, (e + 1) as nat);
                    assert(pow(p as int, (e + 1) as nat) <= n_entry) by (nonlinear_arith)
                        requires
                            pow(p as int, (e + 1) as nat) * q == n_entry,
                            q >= 1,
                            pow(p as int, (e + 1) as nat) >= 1,
                    ;
                    if e + 1 > 31 {
                        lemma_pow_base_monotone(2, p as int, (e + 1) as nat);
                        vstd::arithmetic::power::lemma_pow_increases(2, 32, (e + 1) as nat);
                        assert(pow(2, 32) == 0x1_0000_0000) by {
                            vstd::arithmetic::power2::lemma2_to64();
                            vstd::arithmetic::power2::lemma_pow2(32);
                        }
                        assert(false);
                    }
                }
                ncur = ncur / p;
                e += 1;
            }
            proof {
                assert(e >= 1);
                vstd::arithmetic::power::lemma_pow_positive(p as int, e as nat);
                assert(ncur <= n_entry) by (nonlinear_arith)
                    requires
                        pow(p as int, e as nat) * ncur == n_entry,
                        pow(p as int, e as nat) >= 1,
                        1 <= ncur,
                ;
                assert forall|d: int| 2 <= d < p implies #[trigger] (ncur as int % d)
                    != 0 by {
                    if ncur as int % d == 0 {
                        lemma_fundamental_div_mod(ncur as int, d);
                        let k = ncur as int / d;
                        assert(n_entry as int == (pow(p as int, e as nat) * k) * d)
                            by (nonlinear_arith)
                            requires
                                pow(p as int, e as nat) * ncur == n_entry,
                                ncur as int == d * k + 0,
                        ;
                        vstd::arithmetic::div_mod::lemma_mod_multiples_basic(
                            pow(p as int, e as nat) * k,
                            d,
                        );
                        assert(false);
                    }
                }
                // p is prime: a smaller divisor of p would divide n_entry
                assert forall|d: int| 2 <= d < p implies #[trigger] ((p as int) % d)
                    != 0 by {
                    if (p as int) % d == 0 {
                        lemma_divisor_transitive(n_entry as int, p as int, d);
                        assert(false);
                    }
                }
                assert(is_prime_spec(p as int));
            }
            let ghost old_res = res@;
            res.push((p, e));
            proof {
                lemma_factor_prod_push(old_res, (p, e));
                assert(factor_prod(res@) * ncur == n) by (nonlinear_arith)
                    requires
                        factor_prod(res@) == factor_prod(old_res) * pow(p as int, e as nat),
                        pow(p as int, e as nat) * ncur == n_entry,
                        factor_prod(old_res) * n_entry == n,
                ;
            }
        }
        proof {
            assert(p <= 46341) by (nonlinear_arith)
                requires
                    (p as int) * (p as int) <= n as int,
                    n <= 0x7fff_ffff,
                    2 <= p,
            ;
            assert(p + 1 <= n) by (nonlinear_arith)
                requires
                    (p as int) * (p as int) <= n as int,
                    2 <= p,
            ;
        }
        p += 1;
    }
    if ncur != 1 {
        proof {
            lemma_no_divisor_below_root(ncur as int, p as int);
            // the leftover exceeds every stored prime: anything smaller
            // than p would divide it, and it has no such divisor
            if ncur < p {
                assert(ncur as int % ncur as int == 0) by {
                    vstd::arithmetic::div_mod::lemma_mod_self_0(ncur as int);
                }
                assert(false);
            }
        }
        let ghost old_res = res@;
        res.push((ncur, 1));
        proof {
            lemma_factor_prod_push(old_res, (ncur, 1));
            vstd::arithmetic::power::lemma_pow1(ncur as int);
            assert(factor_prod(res@) == n);
            assert forall|i: int|
                0 <= i < res@.len() implies is_prime_spec(#[trigger] res@[i].0 as int)
                && res@[i].1 >= 1 by {
                if i < res@.len() - 1 {
                    assert(res@[i] == old_res[i]);
                }
            }
            assert forall|i: int|
                0 <= i < res@.len() - 1 implies (#[trigger] res@[i].0) < res@[i + 1].0 by {
                assert(res@[i] == old_res[i]);
                if i < res@.len() - 2 {
                    assert(res@[i + 1] == old_res[i + 1]);
                }
            }
        }
    } else {
        proof {
            assert(factor_prod(res@) * 1 == n);
            assert(factor_prod(res@) == n) by (nonlinear_arith)
                requires
                    factor_prod(res@) * 1 == n,
            ;
        }
    }
    proof {
        assert(valid_factorization(res@, n as int)) by {
            assert(factor_prod(res@) == n);
            assert(forall|i: int|
                0 <= i < res@.len() ==> is_prime_spec(#[trigger] res@[i].0 as int)
                    && res@[i].1 >= 1);
            assert(forall|i: int| 0 <= i < res@.len() - 1 ==> (#[trigger] res@[i].0)
                < res@[i + 1].0);
        }
    }
    Ok(res)
}

/// A prime has no zero divisors: if `p` divides `r * q` with `0 < r < p`,
/// then `p` divides `q`. Proved by descent on `r`, replacing `r` with
/// `p % r`.
pub(crate) proof fn lemma_prime_zero_divisor(p: int, r: int, q: int)
    requires
        is_prime_spec(p),
        1 <= r < p,
        0 <= q,
        (r * q) % p == 0,
    ensures
        q % p == 0,
    decreases r,
{
    if r == 1 {
        assert(1 * q == q);
    } else {
        assert(p % r != 0);
        let r2 = p % r;
        assert(0 <= r2 < r) by {
            vstd::arithmetic::div_mod::lemma_mod_bound(p, r);
        }
        lemma_fundamental_div_mod(p, r);
        lemma_fundamental_div_mod(r * q, p);
        let k = (r * q) / p;
        let c = p / r;
        assert(r2 * q == p * (q - c * k)) by (nonlinear_arith)
            requires
                p == r * c + r2,
                r * q == p * k + 0,
        ;
        assert((p * (q - c * k)) % p == 0) by {
            vstd::arithmetic::div_mod::lemma_mod_multiples_basic(q - c * k, p);
            vstd::arithmetic::mul::lemma_mul_is_commutative(p, q - c * k);
        }
        lemma_prime_zero_divisor(p, r2, q);
    }
}

/// A prime that divides a power of a prime is that prime.
pub(crate) proof fn lemma_prime_divides_prime_pow(d: int, q: int, e: nat)
    requires
        is_prime_spec(d),
        is_prime_spec(q),
        pow(q, e) % d == 0,
    ensures
        d == q,
    decreases e,
{
    reveal(pow);
    if e == 0 {
        assert(1int % d == 1) by {
            vstd::arithmetic::div_mod::lemma_small_mod(1, d as nat);
        }
        assert(false);
    } else {
        let rest = pow(q, (e - 1) as nat);
        vstd::arithmetic::power::lemma_pow_positive(q, (e - 1) as nat);
        if q % d == 0 {
            lemma_fundamental_div_mod(q, d);
            let k = q / d;
            assert(k >= 1) by (nonlinear_arith)
                requires
                    q == d * k + 0,
                    q >= 2,
                    d >= 2,
            ;
            if d < q {
                assert(q % d != 0);
                assert(false);
            }
            if d > q {
                assert(false) by (nonlinear_arith)
                    requires
                        q == d * k + 0,
                        k >= 1,
                        d > q,
                        q >= 2,
                ;
            }
        } else {
            let r = q % d;
            assert(1 <= r < d) by {
                vstd::arithmetic::div_mod::lemma_mod_bound(q, d);
            }
            assert((r * rest) % d == 0) by {
                vstd::arithmetic::div_mod::lemma_mul_mod_noop_left(q, rest, d);
            }
            lemma_prime_zero_divisor(d, r, rest);
            lemma_prime_divides_prime_pow(d, q, (e - 1) as nat);
        }
    }
}

/// Whether `n` is a power of a single prime, that is, whether its prime
/// factorization has exactly one entry.
pub fn is_prime_pow(n: i32) -> (r: Result<bool, Error>)
    ensures
        n <= 0 <==> r == Err::<bool, Error>(Error::NotPositive),
        n >= 1 ==> (r matches Ok(b) && (b <==> exists|q: int, e: nat|
            is_prime_spec(q) && e >= 1 && #[trigger] pow(q, e) == n as int)),
{
    let v = match prime_factors(n) {
        Ok(v) => v,
        Err(e) => {
            return Err(e);
        },
    };
    let b = v.len() == 1;
    proof {
        if b {
            let q = v@[0].0 as int;
            let e = v@[0].1 as nat;
            assert(v@.drop_last() =~= Seq::<(i32, i32)>::empty());
            assert(v@.last() == v@[0]);
            assert(factor_prod(Seq::<(i32, i32)>::empty()) == 1);
            assert(factor_prod(v@) == 1 * pow(q, e));
            assert(1 * pow(q, e) == pow(q, e));
            assert(is_prime_spec(v@[0].0 as int) && v@[0].1 >= 1);
            assert(is_prime_spec(q) && e >= 1 && pow(q, e) == n as int);
        } else if exists|q: int, e: nat|
            is_prime_spec(q) && e >= 1 && #[trigger] pow(q, e) == n as int {
            let (q, e) = choose|q: int, e: nat|
                is_prime_spec(q) && e >= 1 && #[trigger] pow(q, e) == n as int;
            reveal(pow);
            if v@.len() == 0 {
                vstd::arithmetic::power::lemma_pow_positive(q, (e - 1) as nat);
                assert(pow(q, e) >= 2) by (nonlinear_arith)
                    requires
                        pow(q, e) == q * pow(q, (e - 1) as nat),
                        q >= 2,
                        pow(q, (e - 1) as nat) >= 1,
                ;
                assert(false);
            } else {
                lemma_factor_prod_facts(v@);
                let q1 = v@[0].0 as int;
                let q2 = v@[1].0 as int;
                assert(factor_prod(v@) % q1 == 0);
                assert(factor_prod(v@) % q2 == 0);
                lemma_prime_divides_prime_pow(q1, q, e);
                lemma_prime_divides_prime_pow(q2, q, e);
                assert(false);
            }
        }
    }
    Ok(b)
}

/// Euler's criterion as the implementation applies it: `i` raised to
/// `(p - 1) / 2` is 1 modulo `p`.
pub open spec fn euler_criterion(i: int, p: int) -> bool {
    pow(i, ((p - 1) / 2) as nat) % p == 1
}

/// Membership in the quadratic-residue list of `p`: 0 and 1 always, and the
/// canonical residues in `[2, p)` that pass Euler's criterion.
pub open spec fn is_listed_qr(v: int, p: int) -> bool {
    v == 0 || v == 1 || (2 <= v < p && euler_criterion(v, p))
}

/// The ascending list of quadratic residues modulo a prime.
pub fn qr_mod_prime(p: i32) -> (r: Result<Vec<i32>, Error>)
    ensures
        p <= 0 <==> r == Err::<Vec<i32>, Error>(Error::NotPositive),
        (1 <= p && !is_prime_spec(p as int)) <==> r == Err::<Vec<i32>, Error>(
            Error::NotAPrime,
        ),
        is_prime_spec(p as int) ==> (r matches Ok(v) && {
            &&& forall|i: int| 0 <= i < v@.len() ==> is_listed_qr(#[trigger] v@[i] as int, p as int)
            &&& forall|x: i32| is_listed_qr(x as int, p as int) ==> v@.contains(x)
            &&& forall|i: int, j: int| 0 <= i < j < v@.len() ==> v@[i] < v@[j]
        }),
{
    match is_prime(p) {
        Err(e) => {
            return Err(e);
        },
        Ok(false) => {
            return Err(Error::NotAPrime);
        },
        Ok(true) => {},
    }
    let mut qrs: Vec<i32> = Vec::new();
    qrs.push(0);
    qrs.push(1);
    let half: i32 = (p - 1) / 2;
    proof {
        assert(qrs@[0] == 0i32 && qrs@[1] == 1i32);
        assert forall|x: i32| 0 <= x < 2 && is_listed_qr(x as int, p as int)
            implies qrs@.contains(x) by {
            if x == 0 {
                assert(qrs@[0] == x);
            } else {
                assert(qrs@[1] == x);
            }
        }
    }
    let mut i: i32 = 2;
    while i < p
        invariant
            2 <= i <= p,
            2 <= p,
            is_prime_spec(p as int),
            half == (p as int - 1) / 2,
            half >= 0,
            forall|k: int| 0 <= k < qrs@.len() ==> is_listed_qr(#[trigger] qrs@[k] as int, p as int),
            forall|k: int| 0 <= k < qrs@.len() ==> (#[trigger] qrs@[k]) < i,
            forall|x: i32| 0 <= x < i && is_listed_qr(x as int, p as int) ==> qrs@.contains(x),
            forall|k: int, l: int| 0 <= k < l < qrs@.len() ==> qrs@[k] < qrs@[l],
        decreases p - i,
    {
        let t = match mod_pow(i, half, p) {
            Ok(t) => t,
            Err(e) => {
                return Err(e);
            },
        };
        let ghost old_qrs = qrs@;
        if t == 1 {
            qrs.push(i);
        }
        proof {
            assert forall|x: i32| 0 <= x < i + 1 && is_listed_qr(x as int, p as int)
                implies qrs@.contains(x) by {
                if x < i {
                    assert(old_qrs.contains(x));
                    let k = choose|k: int| 0 <= k < old_qrs.len() && old_qrs[k] == x;
                    assert(qrs@[k] == x);
                } else {
                    assert(x == i);
                    assert(euler_criterion(i as int, p as int) ==> t == 1);
                    assert(qrs@[qrs@.len() - 1] == i);
                }
            }
        }
        i += 1;
    }
    proof {
        assert forall|x: i32| is_listed_qr(x as int, p as int) implies qrs@.contains(x) by {
            assert(0 <= x < p);
        }
    }
    Ok(qrs)
}

/// The Legendre symbol of `a` with respect to `p`: 0 when `a` shares a
/// factor with `p`, 1 when the canonical residue of `a` appears in the
/// quadratic-residue list of `p`, and -1 otherwise; it depends only on
/// the residue class of `a`.
pub open spec fn legendre_spec(a: int, p: int) -> int {
    if gcd_spec(a, p) != 1 {
        0
    } else if is_listed_qr(a % p, p) {
        1
    } else {
        -1
    }
}

/// The Legendre symbol, computed from the quadratic-residue list.
pub fn legendre(a: i32, p: i32) -> (r: Result<i32, Error>)
    requires
        a > i32::MIN,
    ensures
        p <= 0 <==> r == Err::<i32, Error>(Error::NotPositive),
        (1 <= p && !is_prime_spec(p as int)) <==> r == Err::<i32, Error>(Error::NotAPrime),
        is_prime_spec(p as int) ==> r == Ok::<i32, Error>(
            legendre_spec(a as int, p as int) as i32,
        ),
{
    let qrs = match qr_mod_prime(p) {
        Ok(v) => v,
        Err(e) => {
            return Err(e);
        },
    };
    if gcd(a, p) != 1 {
        return Ok(0);
    }
    let ar = emod(a as i64, p);
    let n = qrs.len();
    let mut k: usize = 0;
    let mut found = false;
    while k < n
        invariant
            0 <= k <= n,
            n == qrs@.len(),
            found <==> exists|j: int| 0 <= j < k && qrs@[j] == ar,
        decreases n - k,
    {
        if qrs[k] == ar {
            found = true;
        }
        k += 1;
    }
    proof {
        assert(found <==> qrs@.contains(ar));
        assert(found <==> is_listed_qr((a as int) % (p as int), p as int));
    }
    if found {
        Ok(1)
    } else {
        Ok(-1)
    }
}

/// Raising a larger base to the same exponent gives a larger power.
proof fn lemma_pow_base_monotone(b1: int, b2: int, e: nat)
    requires
        1 <= b1 <= b2,
    ensures
        pow(b1, e) <= pow(b2, e),
    decreases e,
{
    reveal(pow);
    if e > 0 {
        lemma_pow_base_monotone(b1, b2, (e - 1) as nat);
        vstd::arithmetic::power::lemma_pow_positive(b1, (e - 1) as nat);
        assert(b1 * pow(b1, (e - 1) as nat) <= b2 * pow(b2, (e - 1) as nat))
            by (nonlinear_arith)
            requires
                1 <= b1 <= b2,
                1 <= pow(b1, (e - 1) as nat) <= pow(b2, (e - 1) as nat),
        ;
    }
}

/// Euclid's algorithm, recursive, on ordered non-negative arguments.
pub fn inner_gcd(a: i32, b: i32) -> (r: i32)
    requires
        0 <= a,
        0 <= b,
    ensures
        r == gcd_rec(a as nat, b as nat),
        0 <= r,
    decreases a,
{
    if a == 0 {
        return b;
    }
    inner_gcd(b % a, a)
}

/// Greatest common divisor of two integers, by absolute value;
/// `gcd(0, 0) == 0`.
pub fn gcd(a: i32, b: i32) -> (r: i32)
    requires
        a > i32::MIN,
        b > i32::MIN,
    ensures
        r == gcd_spec(a as int, b as int),
{
    let aa: i32 = if a < 0 {
        -a
    } else {
        a
    };
    let bb: i32 = if b < 0 {
        -b
    } else {
        b
    };
    if aa <= bb {
        inner_gcd(aa, bb)
    } else {
        inner_gcd(bb, aa)
    }
}

/// Modular exponentiation by iterated multiplication, reducing after each
/// step; linear in the exponent.
pub fn mod_pow(base: i32, exp: i32, modulo: i32) -> (r: Result<i32, Error>)
    ensures
        modulo < 1 <==> r == Err::<i32, Error>(Error::NotPositive),
        modulo >= 1 && exp < 0 <==> r == Err::<i32, Error>(Error::NotNonNegative),
        modulo >= 1 && exp >= 0 ==> r == Ok::<i32, Error>(
            (pow(base as int, exp as nat) % (modulo as int)) as i32,
        ),
{
    if modulo < 1 {
        return Err(Error::NotPositive);
    }
    if exp < 0 {
        return Err(Error::NotNonNegative);
    }
    if modulo == 1 {
        assert(pow(base as int, exp as nat) % 1int == 0) by {
            vstd::arithmetic::div_mod::lemma_mod_self_0(1);
            vstd::arithmetic::div_mod::lemma_mod_twice(pow(base as int, exp as nat), 1);
            vstd::arithmetic::div_mod::lemma_mod_bound(pow(base as int, exp as nat), 1);
        }
        return Ok(0);
    }
    if exp == 0 {
        assert(pow(base as int, 0) == 1) by {
            vstd::arithmetic::power::lemma_pow0(base as int);
        }
        assert(1int % (modulo as int) == 1) by {
            vstd::arithmetic::div_mod::lemma_small_mod(1, modulo as nat);
        }
        return Ok(1);
    }
    let m64: i64 = modulo as i64;
    let b: i64 = emod64(base as i64, m64);
    proof {
        vstd::arithmetic::power::lemma_pow1(base as int);
    }
    let mut res: i64 = b;
    let mut i: i32 = 1;
    while i < exp
        invariant
            1 <= i <= exp,
            2 <= m64 <= i32::MAX,
            0 <= res < m64,
            0 <= b < m64,
            b == (base as int) % (m64 as int),
            res == pow(base as int, i as nat) % (m64 as int),
        decreases exp - i,
    {
        proof {
            assert(res * b < m64 * m64) by (nonlinear_arith)
                requires
                    0 <= res < m64,
                    0 <= b < m64,
            ;
            assert(m64 * m64 <= 0x3fff_ffff_0000_0001i64) by (nonlinear_arith)
                requires
                    2 <= m64 <= 0x7fff_ffffi64,
            ;
            assert(res * b >= 0) by (nonlinear_arith)
                requires
                    0 <= res,
                    0 <= b,
            ;
        }
        let next: i64 = emod64(res * b, m64);
        proof {
            let bi = base as int;
            let mi = m64 as int;
            let e = i as nat;
            lemma_mul_mod_noop_general(pow(bi, e), bi, mi);
            assert(pow(bi, e) * bi == pow(bi, (e + 1) as nat)) by {
                vstd::arithmetic::power::lemma_pow_adds(bi, e, 1);
                vstd::arithmetic::power::lemma_pow1(bi);
            }
            assert((res * b) % mi == ((pow(bi, e) % mi) * (bi % mi)) % mi);
            assert(next == pow(bi, (e + 1) as nat) % mi);
        }
        res = next;
        i += 1;
    }
    Ok(res as i32)
}

} // verus!
