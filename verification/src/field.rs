//! The integers modulo a positive 64-bit modulus.
//!
//! Every operation takes arbitrary 64-bit operands and returns the canonical
//! representative of the result, a number below the modulus.

use crate::utils::error::PolynomialError;
use crate::wide::{u256_as_u64, u256_from_u64, u256_rem, u256_value};
use primitive_types::U256;
use vstd::arithmetic::div_mod::{
    lemma_mod_bound, lemma_mul_mod_noop_general, lemma_small_mod,
};
use vstd::arithmetic::power::{
    lemma_pow0, lemma_pow1, lemma_pow_adds, lemma_pow_mod_noop, lemma_pow_multiplies,
    lemma_square_is_pow2, pow,
};
use vstd::prelude::*;

verus! {

/// `(a + b) mod m`.
pub open spec fn mod_add(a: nat, b: nat, m: nat) -> nat {
    (a + b) % m
}

/// `(a - b) mod m`, the representative in `[0, m)`.
pub open spec fn mod_sub(a: nat, b: nat, m: nat) -> nat {
    ((a - b) % (m as int)) as nat
}

/// `(a * b) mod m`.
pub open spec fn mod_mul(a: nat, b: nat, m: nat) -> nat {
    (a * b) % m
}

/// `(base ^ exp) mod m`.
pub open spec fn mod_pow(base: nat, exp: nat, m: nat) -> nat {
    (pow(base as int, exp) % (m as int)) as nat
}

/// The ring of integers modulo a positive modulus.
#[derive(Debug, Clone, Copy, PartialEq, Eq)]
pub struct Field {
    modulus: u64,
}

impl Field {
    #[verifier::type_invariant]
    spec fn positive(self) -> bool {
        self.modulus > 0
    }

    /// The modulus, as a number.
    pub closed spec fn order(self) -> nat {
        self.modulus as nat
    }

    /// The field of integers modulo `modulus`; refused when `modulus` is zero.
    pub fn new(modulus: u64) -> (r: Result<Field, PolynomialError>)
        ensures
            modulus == 0 <==> r == Err::<Field, PolynomialError>(PolynomialError::InvalidModulus),
            modulus > 0 <==> r is Ok,
            r is Ok ==> r->Ok_0.order() == modulus,
    {
        if modulus == 0 {
            Err(PolynomialError::InvalidModulus)
        } else {
            Ok(Field { modulus })
        }
    }

    /// The modulus, which is never zero.
    pub fn modulus(&self) -> (r: u64)
        ensures
            r == self.order(),
            r > 0,
    {
        proof {
            use_type_invariant(self);
        }
        self.modulus
    }

    /// Whether two fields have the same modulus.
    pub fn same_as(&self, other: &Field) -> (r: bool)
        ensures
            r == (self.order() == other.order()),
    {
        self.modulus == other.modulus
    }

    /// Reduces a 256-bit value into `[0, modulus)`.
    pub fn self_mod(&self, value: U256) -> (r: U256)
        ensures
            u256_value(r) == u256_value(value) % self.order(),
            u256_value(r) < self.order(),
    {
        proof {
            use_type_invariant(self);
        }
        let m: U256 = u256_from_u64(self.modulus);
        let r: U256 = u256_rem(value, m);
        proof {
            lemma_mod_bound(u256_value(value) as int, self.modulus as int);
        }
        r
    }

    /// Reduces a 256-bit value into `[0, modulus)` and hands it out as a
    /// machine word.
    pub fn residue(&self, value: &U256) -> (r: u64)
        ensures
            r == u256_value(*value) % self.order(),
            r < self.order(),
    {
        let reduced: U256 = self.self_mod(*value);
        u256_as_u64(&reduced)
    }

    /// `(a + b) mod modulus`.
    pub fn add(&self, a: u64, b: u64) -> (r: u64)
        ensures
            r == mod_add(a as nat, b as nat, self.order()),
            r < self.order(),
    {
        proof {
            use_type_invariant(self);
        }
        let wide: u128 = a as u128 + b as u128;
        let r: u128 = wide % (self.modulus as u128);
        r as u64
    }

    /// `(a - b) mod modulus`: the representative in `[0, modulus)`, also where
    /// `b` is the larger.
    pub fn sub(&self, a: u64, b: u64) -> (r: u64)
        ensures
            r == mod_sub(a as nat, b as nat, self.order()),
            r < self.order(),
    {
        proof {
            use_type_invariant(self);
        }
        let m: u64 = self.modulus;
        let ra: u64 = a % m;
        let rb: u64 = b % m;
        let r: u64 = if ra >= rb {
            ra - rb
        } else {
            m - (rb - ra)
        };
        proof {
            lemma_sub_reduced(a as int, b as int, m as int);
        }
        r
    }

    /// `(a * b) mod modulus`.
    pub fn mult(&self, a: u64, b: u64) -> (r: u64)
        ensures
            r == mod_mul(a as nat, b as nat, self.order()),
            r < self.order(),
    {
        proof {
            use_type_invariant(self);
            assert(a as u128 * b as u128 <= 0xFFFF_FFFF_FFFF_FFFF * 0xFFFF_FFFF_FFFF_FFFF)
                by (nonlinear_arith)
                requires
                    a as u128 <= 0xFFFF_FFFF_FFFF_FFFF,
                    b as u128 <= 0xFFFF_FFFF_FFFF_FFFF,
            ;
        }
        let wide: u128 = a as u128 * b as u128;
        let r: u128 = wide % (self.modulus as u128);
        r as u64
    }
    /// `(base ^ exp) mod modulus`, by repeated squaring.
    pub fn pow(&self, base: u64, exp: u64) -> (r: u64)
        ensures
            r == mod_pow(base as nat, exp as nat, self.order()),
            r < self.order(),
    {
        proof {
            use_type_invariant(self);
        }
        let m: u64 = self.modulus;
        let mut result: u64 = 1 % m;
        let mut b: u64 = base % m;
        let mut e: u64 = exp;
        proof {
            lemma_pow_mod_noop(base as int, exp as nat, m as int);
            lemma_mul_mod_noop_general(1, pow(b as int, e as nat), m as int);
        }
        while e > 0
            invariant
                m == self.modulus,
                m > 0,
                result < m,
                b < m,
                (result * pow(b as int, e as nat)) % (m as int) == pow(base as int, exp as nat) % (
                m as int),
            decreases e,
        {
            proof {
                lemma_pow_halves(result as int, b as int, e as nat, m as int);
            }
            if e % 2 == 1 {
                result = self.mult(result, b);
            }
            b = self.mult(b, b);
            e = e / 2;
        }
        proof {
            lemma_pow0(b as int);
            lemma_small_mod(result as nat, m as nat);
            lemma_mod_bound(pow(base as int, exp as nat), m as int);
        }
        result
    }
}

/// The difference of two numbers modulo `m`, from their residues.
proof fn lemma_sub_reduced(a: int, b: int, m: int)
    requires
        m > 0,
    ensures
        a % m >= b % m ==> (a - b) % m == a % m - b % m,
        a % m < b % m ==> (a - b) % m == m - (b % m - a % m),
{
    vstd::arithmetic::div_mod::lemma_sub_mod_noop(a, b, m);
    lemma_mod_bound(a, m);
    lemma_mod_bound(b, m);
    let d: int = a % m - b % m;
    if d >= 0 {
        lemma_small_mod(d as nat, m as nat);
    } else {
        vstd::arithmetic::div_mod::lemma_mod_add_multiples_vanish(d, m);
        lemma_small_mod((m + d) as nat, m as nat);
    }
}

/// One round of repeated squaring: halving the exponent while squaring the
/// base, and moving one factor into the accumulator when the exponent is odd,
/// keeps `r * b^e` the same modulo `m`.
proof fn lemma_pow_halves(r: int, b: int, e: nat, m: int)
    requires
        m > 0,
        e > 0,
    ensures
        e % 2 == 1 ==> (((r * b) % m) * pow((b * b) % m, e / 2)) % m == (r * pow(b, e)) % m,
        e % 2 == 0 ==> (r * pow((b * b) % m, e / 2)) % m == (r * pow(b, e)) % m,
{
    let k: nat = e / 2;
    let sq: int = pow(b * b, k);
    let sq_m: int = pow((b * b) % m, k);
    lemma_pow_mod_noop(b * b, k, m);
    lemma_square_is_pow2(b);
    lemma_pow_multiplies(b, 2, k);
    assert(pow(b, 2 * k) == sq);
    if e % 2 == 0 {
        assert(e == 2 * k);
        lemma_mul_mod_noop_general(r, sq_m, m);
        lemma_mul_mod_noop_general(r, sq, m);
    } else {
        assert(e == 2 * k + 1);
        lemma_pow_adds(b, 1, 2 * k);
        lemma_pow1(b);
        assert(pow(b, e) == b * sq);
        assert(r * (b * sq) == (r * b) * sq) by (nonlinear_arith);
        lemma_mul_mod_noop_general(r * b, sq_m, m);
        lemma_mul_mod_noop_general(r * b, sq, m);
    }
}

} // verus!
