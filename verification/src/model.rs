//! The mathematics that the polynomial operations are stated in: coefficient
//! sequences of natural numbers, index = degree of the term.

use crate::field::{mod_add, mod_mul, mod_pow, mod_sub};
use vstd::arithmetic::div_mod::{
    lemma_add_mod_noop, lemma_mod_bound, lemma_mod_twice, lemma_mul_mod_noop_general,
};
use vstd::arithmetic::power::{lemma_pow1, lemma_pow_adds, pow};
use vstd::prelude::*;

verus! {

/// Every coefficient is a canonical representative modulo `m`.
pub open spec fn in_field(c: Seq<nat>, m: nat) -> bool {
    forall|i: int| 0 <= i < c.len() ==> #[trigger] c[i] < m
}

/// Each coefficient reduced modulo `m`, positions kept.
pub open spec fn reduce(c: Seq<nat>, m: nat) -> Seq<nat> {
    Seq::new(c.len(), |i: int| c[i] % m)
}

/// The highest index that holds a non-zero coefficient; `0` where there is
/// none, so the zero polynomial and a non-zero constant share degree `0`.
pub open spec fn degree(c: Seq<nat>) -> nat
    decreases c.len(),
{
    if c.len() == 0 {
        0
    } else if c.last() != 0 {
        (c.len() - 1) as nat
    } else {
        degree(c.drop_last())
    }
}

/// The coefficient of the term of degree `i`; zero beyond what is stored.
pub open spec fn coeff_at(c: Seq<nat>, i: int) -> nat {
    if 0 <= i < c.len() {
        c[i]
    } else {
        0
    }
}

/// How many coefficients a termwise combination of `a` and `b` has: one more
/// than the larger of the two degrees.
pub open spec fn termwise_len(a: Seq<nat>, b: Seq<nat>) -> nat {
    if degree(a) >= degree(b) {
        degree(a) + 1
    } else {
        degree(b) + 1
    }
}

/// Termwise sum modulo `m`.
pub open spec fn add_coeffs(a: Seq<nat>, b: Seq<nat>, m: nat) -> Seq<nat> {
    Seq::new(termwise_len(a, b), |i: int| mod_add(coeff_at(a, i), coeff_at(b, i), m))
}

/// Termwise difference modulo `m`.
pub open spec fn sub_coeffs(a: Seq<nat>, b: Seq<nat>, m: nat) -> Seq<nat> {
    Seq::new(termwise_len(a, b), |i: int| mod_sub(coeff_at(a, i), coeff_at(b, i), m))
}

/// Termwise product modulo `m`: coefficient by coefficient, not the
/// convolution that multiplies two polynomials as functions.
pub open spec fn mult_coeffs(a: Seq<nat>, b: Seq<nat>, m: nat) -> Seq<nat> {
    Seq::new(termwise_len(a, b), |i: int| mod_mul(coeff_at(a, i), coeff_at(b, i), m))
}

/// The value of the polynomial at `x`, over the integers: the sum of
/// `c[i] * x^i`.
pub open spec fn poly_value(c: Seq<nat>, x: nat) -> int
    decreases c.len(),
{
    if c.len() == 0 {
        0
    } else {
        poly_value(c.drop_last(), x) + c.last() * pow(x as int, (c.len() - 1) as nat)
    }
}

/// The value of the polynomial at `x` in the field: `poly_value` modulo `m`.
pub open spec fn eval(c: Seq<nat>, x: nat, m: nat) -> nat {
    (poly_value(c, x) % (m as int)) as nat
}

/// The roots found among the candidates `0, 1, .., n - 1`, in that order, each
/// recorded by its representative modulo `m`.
pub open spec fn roots_below(c: Seq<nat>, m: nat, n: nat) -> Seq<nat>
    decreases n,
{
    if n == 0 {
        Seq::empty()
    } else {
        let x: nat = (n - 1) as nat;
        if eval(c, x, m) == 0 {
            roots_below(c, m, x).push(x % m)
        } else {
            roots_below(c, m, x)
        }
    }
}

/// The characterisation of `degree`: it is a valid index unless nothing is
/// stored, everything above it is zero, and the coefficient at it is non-zero
/// unless every coefficient is zero.
pub proof fn lemma_degree(c: Seq<nat>)
    ensures
        c.len() == 0 ==> degree(c) == 0,
        c.len() > 0 ==> degree(c) < c.len(),
        forall|i: int| degree(c) < i < c.len() ==> #[trigger] c[i] == 0,
        (exists|i: int| 0 <= i < c.len() && #[trigger] c[i] != 0) ==> c[degree(c) as int] != 0,
        (forall|i: int| 0 <= i < c.len() ==> #[trigger] c[i] == 0) ==> degree(c) == 0,
    decreases c.len(),
{
    if c.len() > 0 && c.last() == 0 {
        let d: Seq<nat> = c.drop_last();
        lemma_degree(d);
        assert forall|i: int| degree(c) < i < c.len() implies #[trigger] c[i] == 0 by {
            if i < d.len() {
                assert(d[i] == c[i]);
            }
        }
        if exists|i: int| 0 <= i < c.len() && #[trigger] c[i] != 0 {
            let i: int = choose|i: int| 0 <= i < c.len() && #[trigger] c[i] != 0;
            assert(d[i] == c[i]);
            assert(d[degree(d) as int] == c[degree(d) as int]);
        }
        if forall|i: int| 0 <= i < c.len() ==> #[trigger] c[i] == 0 {
            assert forall|i: int| 0 <= i < d.len() implies #[trigger] d[i] == 0 by {
                assert(d[i] == c[i]);
            }
        }
    }
}

/// Adding one more term: the value of the first `i + 1` terms is the value of
/// the first `i` terms plus `c[i] * x^i`.
pub proof fn lemma_poly_value_step(c: Seq<nat>, x: nat, i: int)
    requires
        0 <= i < c.len(),
    ensures
        poly_value(c.take(i + 1), x) == poly_value(c.take(i), x) + c[i] * pow(x as int, i as nat),
{
    let t: Seq<nat> = c.take(i + 1);
    assert(t.drop_last() =~= c.take(i));
    assert(t.last() == c[i]);
}

/// One step of evaluating term by term in the field. Where `acc` is the value
/// of the first `i` terms modulo `m` and `p` is congruent to `x^i`, adding the
/// reduced product of the reduced coefficient and `p` gives the value of the
/// first `i + 1` terms modulo `m`; and `p * x` is congruent to `x^(i + 1)`.
pub proof fn lemma_eval_step(c: Seq<nat>, x: nat, m: nat, i: int, acc: nat, p: nat)
    requires
        m > 0,
        0 <= i < c.len(),
        acc == eval(c.take(i), x, m),
        p % m == mod_pow(x, i as nat, m),
    ensures
        mod_add(acc, mod_mul(c[i] % m, p, m), m) == eval(c.take(i + 1), x, m),
        mod_mul(p, x, m) % m == mod_pow(x, (i + 1) as nat, m),
{
    let mi: int = m as int;
    let xi: int = x as int;
    let power: int = pow(xi, i as nat);
    let term: int = c[i] * power;
    let before: int = poly_value(c.take(i), x);
    lemma_poly_value_step(c, x, i);
    lemma_mod_bound(power, mi);
    lemma_mod_bound(before, mi);
    // the reduced product is the term modulo m
    lemma_mul_mod_noop_general(c[i] as int, p as int, mi);
    lemma_mul_mod_noop_general(c[i] as int, power, mi);
    assert(mod_mul(c[i] % m, p, m) == term % mi);
    // and the sum of the two residues is the sum modulo m
    lemma_add_mod_noop(before, term, mi);
    // the next power
    lemma_mul_mod_noop_general(p as int, xi, mi);
    lemma_mul_mod_noop_general(power, xi, mi);
    lemma_mod_twice((p * x) as int, mi);
    lemma_pow_adds(xi, i as nat, 1);
    lemma_pow1(xi);
    lemma_mod_bound(pow(xi, (i + 1) as nat), mi);
}

} // verus!
