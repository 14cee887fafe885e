//! Fermat's little theorem, proved by the classical counting argument:
//! multiplication by a unit permutes the nonzero residues, so the two
//! products of all nonzero residues agree, and the factor `a^(p-1)`
//! cancels. Products over residue sets are taken in a fixed ascending
//! order, which keeps every step a plain induction.

use crate::prime::{is_prime_spec, lemma_prime_zero_divisor};
use vstd::arithmetic::div_mod::{
    lemma_mod_bound, lemma_mod_equivalence, lemma_mod_twice,
    lemma_mul_mod_noop_general, lemma_mul_mod_noop_left, lemma_mul_mod_noop_right,
    lemma_small_mod,
};
use vstd::arithmetic::power::pow;
use vstd::prelude::*;
use vstd::set_lib::{lemma_int_range, set_int_range};

verus! {

/// The factorial of `k`.
pub open spec fn prod_up(k: nat) -> int
    decreases k,
{
    if k == 0 {
        1
    } else {
        prod_up((k - 1) as nat) * k
    }
}

/// The product of the residues `(a * j) % p` for `j` in `[1, k]`.
pub open spec fn prod_map(a: int, p: int, k: nat) -> int
    decreases k,
{
    if k == 0 {
        1
    } else {
        prod_map(a, p, (k - 1) as nat) * ((a * k) % p)
    }
}

/// The product of the members of `s` among `1, ..., k`, in ascending
/// order.
pub open spec fn ind_prod(s: Set<int>, k: nat) -> int
    decreases k,
{
    if k == 0 {
        1
    } else {
        ind_prod(s, (k - 1) as nat) * (if s.contains(k as int) {
            k as int
        } else {
            1
        })
    }
}

/// The set of residues `(a * j) % p` for `j` in `[1, k]`.
pub open spec fn res_set(a: int, p: int, k: nat) -> Set<int>
    decreases k,
{
    if k == 0 {
        Set::empty()
    } else {
        res_set(a, p, (k - 1) as nat).insert((a * k) % p)
    }
}

proof fn lemma_prod_map_pow(a: int, p: int, k: nat)
    requires
        p >= 1,
    ensures
        prod_map(a, p, k) % p == (pow(a, k) * prod_up(k)) % p,
    decreases k,
{
    reveal(pow);
    if k == 0 {
    } else {
        lemma_prod_map_pow(a, p, (k - 1) as nat);
        let pm = prod_map(a, p, (k - 1) as nat);
        let pw = pow(a, (k - 1) as nat);
        let pu = prod_up((k - 1) as nat);
        let v = (a * k) % p;
        lemma_mul_mod_noop_left(pm, v, p);
        lemma_mul_mod_noop_general(pm, a * k, p);
        assert((pm * v) % p == (pm * (a * k)) % p);
        lemma_mul_mod_noop_left(pm, a * k, p);
        lemma_mul_mod_noop_left(pw * pu, a * k, p);
        assert(((pw * pu) * (a * k)) % p == (pm * (a * k)) % p);
        assert((pw * pu) * (a * k) == pow(a, k) * prod_up(k)) by (nonlinear_arith)
            requires
                pow(a, k) == a * pw,
                prod_up(k) == pu * k,
        ;
    }
}

proof fn lemma_prod_up_unit(p: int, k: nat)
    requires
        is_prime_spec(p),
        k < p,
    ensures
        prod_up(k) >= 1,
        prod_up(k) % p != 0,
    decreases k,
{
    if k == 0 {
        lemma_small_mod(1, p as nat);
    } else {
        lemma_prod_up_unit(p, (k - 1) as nat);
        let pu = prod_up((k - 1) as nat);
        assert(pu * k >= 1) by (nonlinear_arith)
            requires
                pu >= 1,
                k >= 1,
        ;
        if (pu * k) % p == 0 {
            let r = pu % p;
            lemma_mod_bound(pu, p);
            lemma_mul_mod_noop_left(pu, k as int, p);
            lemma_prime_zero_divisor(p, r, k as int);
            lemma_small_mod(k, p as nat);
            assert(false);
        }
    }
}

proof fn lemma_ind_prod_empty(k: nat)
    ensures
        ind_prod(Set::empty(), k) == 1,
    decreases k,
{
    if k > 0 {
        lemma_ind_prod_empty((k - 1) as nat);
    }
}

proof fn lemma_ind_prod_absent_above(s: Set<int>, v: int, k: nat)
    requires
        v > k,
    ensures
        ind_prod(s.insert(v), k) == ind_prod(s, k),
    decreases k,
{
    if k > 0 {
        lemma_ind_prod_absent_above(s, v, (k - 1) as nat);
    }
}

proof fn lemma_ind_prod_insert(s: Set<int>, v: int, k: nat)
    requires
        1 <= v <= k,
        !s.contains(v),
    ensures
        ind_prod(s.insert(v), k) == v * ind_prod(s, k),
    decreases k,
{
    if v == k {
        lemma_ind_prod_absent_above(s, v, (k - 1) as nat);
        assert(ind_prod(s.insert(v), k) == ind_prod(s, (k - 1) as nat) * v);
        assert(ind_prod(s, k) == ind_prod(s, (k - 1) as nat) * 1);
        assert(ind_prod(s, (k - 1) as nat) * v == v * ind_prod(s, (k - 1) as nat))
            by (nonlinear_arith);
    } else {
        lemma_ind_prod_insert(s, v, (k - 1) as nat);
        let c: int = if s.contains(k as int) {
            k as int
        } else {
            1
        };
        assert(ind_prod(s.insert(v), k) == (v * ind_prod(s, (k - 1) as nat)) * c);
        assert((v * ind_prod(s, (k - 1) as nat)) * c == v * (ind_prod(s, (k - 1) as nat)
            * c)) by (nonlinear_arith);
    }
}

proof fn lemma_ind_prod_range(hi: int, k: nat)
    requires
        k < hi,
    ensures
        ind_prod(set_int_range(1, hi), k) == prod_up(k),
    decreases k,
{
    if k > 0 {
        lemma_ind_prod_range(hi, (k - 1) as nat);
        assert(set_int_range(1, hi).contains(k as int));
    }
}

/// The residues `(a * j) % p` for `j` in `[1, k]` are `k` distinct
/// nonzero canonical residues whose ascending product is `prod_map`.
proof fn lemma_res_set(a: int, p: int, k: nat)
    requires
        is_prime_spec(p),
        a % p != 0,
        k < p,
    ensures
        forall|v: int| res_set(a, p, k).contains(v) ==> 1 <= v < p,
        forall|v: int|
            res_set(a, p, k).contains(v) <==> exists|j: int|
                1 <= j <= k && v == #[trigger] ((a * j) % p),
        res_set(a, p, k).finite(),
        res_set(a, p, k).len() == k,
        ind_prod(res_set(a, p, k), (p - 1) as nat) == prod_map(a, p, k),
    decreases k,
{
    if k == 0 {
        lemma_ind_prod_empty((p - 1) as nat);
        assert(forall|v: int| !res_set(a, p, 0).contains(v));
    } else {
        lemma_res_set(a, p, (k - 1) as nat);
        let s = res_set(a, p, (k - 1) as nat);
        let vk = (a * k) % p;
        lemma_mod_bound(a * k, p);
        // the new residue is nonzero
        if vk == 0 {
            let r = a % p;
            lemma_mod_bound(a, p);
            lemma_mul_mod_noop_left(a, k as int, p);
            lemma_prime_zero_divisor(p, r, k as int);
            lemma_small_mod(k, p as nat);
            assert(false);
        }
        // the new residue is fresh: equal residues force equal indices
        if s.contains(vk) {
            let j = choose|j: int| 1 <= j <= k - 1 && vk == #[trigger] ((a * j) % p);
            assert((a * k) % p == (a * j) % p);
            lemma_mod_equivalence(a * k, a * j, p);
            assert(a * k - a * j == a * (k - j)) by (nonlinear_arith);
            let r = a % p;
            lemma_mod_bound(a, p);
            lemma_mul_mod_noop_left(a, k - j, p);
            lemma_prime_zero_divisor(p, r, k - j);
            lemma_small_mod((k - j) as nat, p as nat);
            assert(false);
        }
        assert(res_set(a, p, k) == s.insert(vk));
        assert(res_set(a, p, k).len() == k) by {
            vstd::set::axiom_set_insert_len(s, vk);
        }
        assert forall|v: int| res_set(a, p, k).contains(v) implies (exists|j: int|
            1 <= j <= k && v == #[trigger] ((a * j) % p)) by {
            if v == vk {
                assert(1 <= k <= k && v == (a * (k as int)) % p);
            }
        }
        lemma_ind_prod_insert(s, vk, (p - 1) as nat);
        assert(vk * prod_map(a, p, (k - 1) as nat) == prod_map(a, p, (k - 1) as nat) * vk)
            by (nonlinear_arith);
    }
}

/// Fermat's little theorem: modulo a prime `p`, any `a` outside the
/// residue class of zero satisfies `a^(p-1) == 1`, so `a^(p-2)` is the
/// multiplicative inverse of `a`.
pub proof fn lemma_fermat(a: int, p: int)
    requires
        is_prime_spec(p),
        a % p != 0,
    ensures
        pow(a, (p - 1) as nat) % p == 1,
        (a * pow(a, (p - 2) as nat)) % p == 1,
{
    let k = (p - 1) as nat;
    lemma_res_set(a, p, k);
    let s = res_set(a, p, k);
    let full = set_int_range(1, p);
    lemma_int_range(1, p);
    assert(s.subset_of(full));
    assert forall|w: int| full.contains(w) implies s.contains(w) by {
        if !s.contains(w) {
            s.lemma_subset_not_in_lt(full, w);
            assert(false);
        }
    }
    assert(s =~= full);
    lemma_ind_prod_range(p, k);
    assert(prod_map(a, p, k) == prod_up(k));
    lemma_prod_map_pow(a, p, k);
    lemma_prod_up_unit(p, k);
    let fv = prod_up(k) % p;
    lemma_mod_bound(prod_up(k), p);
    lemma_mod_twice(prod_up(k), p);
    let xv = pow(a, k) % p;
    lemma_mod_bound(pow(a, k), p);
    lemma_mul_mod_noop_general(pow(a, k), prod_up(k), p);
    assert((xv * fv) % p == fv);
    if xv == 0 {
        assert(0 * fv == 0) by (nonlinear_arith);
        lemma_small_mod(0, p as nat);
        assert(false);
    }
    assert(xv * fv - fv == (xv - 1) * fv) by (nonlinear_arith);
    lemma_mod_equivalence(xv * fv, fv, p);
    assert(((xv - 1) * fv) % p == 0);
    assert((fv * (xv - 1)) % p == 0) by {
        assert((xv - 1) * fv == fv * (xv - 1)) by (nonlinear_arith);
    }
    lemma_prime_zero_divisor(p, fv, xv - 1);
    lemma_small_mod((xv - 1) as nat, p as nat);
    assert(xv == 1);
    // a * a^(p-2) is a^(p-1)
    assert(pow(a, k) == a * pow(a, (p - 2) as nat)) by {
        reveal(pow);
    }
}

} // verus!
