//! Polynomials with coefficients in the integers modulo a 64-bit modulus.

use crate::field::{mod_add, mod_mul, mod_pow, mod_sub, Field};
use crate::model::{
    add_coeffs, coeff_at, degree, eval, in_field, lemma_degree, lemma_eval_step, mult_coeffs,
    poly_value, reduce, roots_below, sub_coeffs, termwise_len,
};
use crate::utils::error::PolynomialError;
use crate::wide::{u256_as_u64, u256_from_u64, u256_is_zero, u256_le, u256_value};
use primitive_types::U256;
use vstd::arithmetic::div_mod::{
    lemma_add_mod_noop, lemma_mod_bound, lemma_mul_mod_noop_general, lemma_small_mod,
    lemma_sub_mod_noop,
};
use vstd::arithmetic::power::lemma_pow0;
use vstd::prelude::*;

verus! {

/// The numbers that a sequence of 256-bit values holds, position by position.
pub open spec fn values(s: Seq<U256>) -> Seq<nat> {
    s.map_values(|c: U256| u256_value(c))
}

/// Which of the three termwise combinations is asked for.
#[derive(Clone, Copy)]
enum Termwise {
    Sum,
    Difference,
    Product,
}

impl Termwise {
    /// What the combination makes of two coefficients modulo `m`.
    spec fn apply(self, a: nat, b: nat, m: nat) -> nat {
        match self {
            Termwise::Sum => mod_add(a, b, m),
            Termwise::Difference => mod_sub(a, b, m),
            Termwise::Product => mod_mul(a, b, m),
        }
    }

    /// The combination of two whole coefficient sequences modulo `m`.
    spec fn combine(self, a: Seq<nat>, b: Seq<nat>, m: nat) -> Seq<nat> {
        Seq::new(termwise_len(a, b), |i: int| self.apply(coeff_at(a, i), coeff_at(b, i), m))
    }
}

/// A combination is the same on two coefficients as on their residues.
proof fn lemma_apply_residues(op: Termwise, a: nat, b: nat, m: nat)
    requires
        m > 0,
    ensures
        op.apply(a % m, b % m, m) == op.apply(a, b, m),
{
    let mi: int = m as int;
    match op {
        Termwise::Sum => {
            lemma_add_mod_noop(a as int, b as int, mi);
        },
        Termwise::Difference => {
            lemma_sub_mod_noop(a as int, b as int, mi);
        },
        Termwise::Product => {
            lemma_mul_mod_noop_general(a as int, b as int, mi);
        },
    }
}

/// A dense polynomial in one variable: `coeffs[i]` is the coefficient of the
/// term of degree `i`, and `field` the field that the coefficients live in.
/// Trailing zero coefficients are kept as they are.
#[derive(Debug, PartialEq)]
pub struct Polynomial {
    pub coeffs: Vec<U256>,
    pub field: Field,
}

impl View for Polynomial {
    type V = Seq<nat>;

    /// The coefficients as numbers, index = degree of the term.
    open spec fn view(&self) -> Seq<nat> {
        values(self.coeffs@)
    }
}

impl Polynomial {
    /// The modulus of the field that the polynomial is defined over.
    pub open spec fn modulus(&self) -> nat {
        self.field.order()
    }

    /// Every stored coefficient is reduced: it lies in `[0, modulus)`.
    pub open spec fn wf(&self) -> bool {
        in_field(self@, self.modulus())
    }

    /// The polynomial over the integers modulo `f` whose coefficients are
    /// `coeffs`, each reduced modulo `f`, in the order given. No coefficient
    /// is dropped. A modulus of zero is refused.
    pub fn new(coeffs: Vec<U256>, f: u64) -> (r: Result<Polynomial, PolynomialError>)
        ensures
            f == 0 ==> r is Err && r->Err_0 == PolynomialError::InvalidModulus,
            f > 0 ==> r is Ok,
            r is Ok ==> {
                &&& r->Ok_0.modulus() == f
                &&& r->Ok_0@ == reduce(values(coeffs@), f as nat)
                &&& r->Ok_0.wf()
            },
    {
        let field: Field = match Field::new(f) {
            Ok(field) => field,
            Err(e) => {
                return Err(e);
            },
        };
        let mut field_coeffs: Vec<U256> = Vec::new();
        let n: usize = coeffs.len();
        let mut i: usize = 0;
        while i < n
            invariant
                n == coeffs.len(),
                i <= n,
                field.order() == f,
                field_coeffs.len() == i,
                forall|j: int|
                    0 <= j < i ==> u256_value(#[trigger] field_coeffs[j]) == u256_value(coeffs[j])
                        % (f as nat),
            decreases n - i,
        {
            let reduced: U256 = field.self_mod(coeffs[i]);
            field_coeffs.push(reduced);
            i = i + 1;
        }
        let p: Polynomial = Polynomial { coeffs: field_coeffs, field };
        proof {
            assert(p@ =~= reduce(values(coeffs@), f as nat));
            assert forall|j: int| 0 <= j < p@.len() implies #[trigger] p@[j] < p.modulus() by {
                vstd::arithmetic::div_mod::lemma_mod_bound(
                    u256_value(coeffs[j]) as int,
                    f as int,
                );
            }
        }
        Ok(p)
    }

    /// The degree: the highest index whose coefficient is not zero, and `0`
    /// where nothing is stored or every coefficient is zero.
    pub fn deg(&self) -> (r: usize)
        ensures
            r == degree(self@),
    {
        let mut i: usize = self.coeffs.len();
        assert(self@.take(i as int) =~= self@);
        while i > 0
            invariant
                i <= self.coeffs.len(),
                degree(self@) == degree(self@.take(i as int)),
            decreases i,
        {
            let ghost prefix: Seq<nat> = self@.take(i as int);
            assert(prefix.last() == u256_value(self.coeffs[i - 1]));
            assert(prefix.drop_last() =~= self@.take(i - 1));
            if !u256_is_zero(&self.coeffs[i - 1]) {
                return i - 1;
            }
            i = i - 1;
        }
        0
    }

    /// A copy of the stored coefficients, in degree order, trailing zeros
    /// included.
    pub fn coeffs(&self) -> (r: Vec<U256>)
        ensures
            r@ == self.coeffs@,
    {
        let mut out: Vec<U256> = Vec::new();
        let n: usize = self.coeffs.len();
        let mut i: usize = 0;
        while i < n
            invariant
                n == self.coeffs.len(),
                i <= n,
                out@ == self.coeffs@.take(i as int),
            decreases n - i,
        {
            out.push(self.coeffs[i]);
            assert(self.coeffs@.take(i + 1) =~= self.coeffs@.take(i as int).push(self.coeffs@[i as int]));
            i = i + 1;
        }
        assert(self.coeffs@.take(n as int) =~= self.coeffs@);
        out
    }

    /// The value of the polynomial at `value` in the field: the sum of
    /// `coeffs[i] * value^i`, reduced modulo the modulus. Every stored
    /// coefficient takes part, trailing zeros too; `value` need not be
    /// reduced.
    pub fn evaluate(&self, value: u64) -> (r: U256)
        ensures
            u256_value(r) == eval(self@, value as nat, self.modulus()),
            u256_value(r) < self.modulus(),
    {
        let m: u64 = self.field.modulus();
        let n: usize = self.coeffs.len();
        let mut result: u64 = 0;
        let mut i: usize = 0;
        proof {
            assert(self@.take(0) =~= Seq::<nat>::empty());
            assert(poly_value(self@.take(0), value as nat) == 0);
            lemma_small_mod(0, m as nat);
        }
        while i < n
            invariant
                n == self.coeffs.len(),
                i <= n,
                m == self.modulus(),
                m > 0,
                result == eval(self@.take(i as int), value as nat, m as nat),
            decreases n - i,
        {
            let c: u64 = self.field.residue(&self.coeffs[i]);
            let p: u64 = self.field.pow(value, i as u64);
            let term: u64 = self.field.mult(c, p);
            proof {
                lemma_small_mod(p as nat, m as nat);
                lemma_eval_step(self@, value as nat, m as nat, i as int, result as nat, p as nat);
            }
            result = self.field.add(result, term);
            i = i + 1;
        }
        proof {
            assert(self@.take(n as int) =~= self@);
            lemma_mod_bound(poly_value(self@, value as nat), m as int);
        }
        u256_from_u64(result)
    }

    /// The residue of the coefficient of the term of degree `i`, zero where
    /// nothing is stored at `i`.
    fn residue_at(&self, i: usize) -> (r: u64)
        ensures
            r == coeff_at(self@, i as int) % self.modulus(),
    {
        if i < self.coeffs.len() {
            self.field.residue(&self.coeffs[i])
        } else {
            let m: u64 = self.field.modulus();
            proof {
                lemma_small_mod(0, m as nat);
            }
            0
        }
    }

    /// The coefficients of a termwise combination with `rhs`, which is over
    /// the same field: one for each index up to the larger of the two
    /// degrees.
    fn termwise(&self, rhs: &Polynomial, op: Termwise) -> (r: Vec<U256>)
        requires
            self.modulus() == rhs.modulus(),
        ensures
            values(r@) == op.combine(self@, rhs@, self.modulus()),
            in_field(values(r@), self.modulus()),
    {
        let m: u64 = self.field.modulus();
        let da: usize = self.deg();
        let db: usize = rhs.deg();
        proof {
            lemma_degree(self@);
            lemma_degree(rhs@);
        }
        let top: usize = if da >= db {
            da
        } else {
            db
        };
        assert(top < usize::MAX) by {
            assert(self@.len() == self.coeffs.len());
            assert(rhs@.len() == rhs.coeffs.len());
        }
        let count: usize = top + 1;
        let mut out: Vec<U256> = Vec::new();
        let mut i: usize = 0;
        while i < count
            invariant
                i <= count,
                count == termwise_len(self@, rhs@),
                m == self.modulus(),
                m == rhs.modulus(),
                m > 0,
                out.len() == i,
                forall|j: int|
                    0 <= j < i ==> u256_value(#[trigger] out[j]) == op.apply(
                        coeff_at(self@, j),
                        coeff_at(rhs@, j),
                        m as nat,
                    ),
                forall|j: int| 0 <= j < i ==> u256_value(#[trigger] out[j]) < m,
            decreases count - i,
        {
            let a: u64 = self.residue_at(i);
            let b: u64 = rhs.residue_at(i);
            let c: u64 = match op {
                Termwise::Sum => self.field.add(a, b),
                Termwise::Difference => self.field.sub(a, b),
                Termwise::Product => self.field.mult(a, b),
            };
            proof {
                lemma_apply_residues(op, coeff_at(self@, i as int), coeff_at(rhs@, i as int), m as nat);
            }
            out.push(u256_from_u64(c));
            i = i + 1;
        }
        assert(values(out@) =~= op.combine(self@, rhs@, m as nat));
        out
    }

    /// The termwise sum: for each index up to the larger of the two degrees,
    /// the sum of the two coefficients in the field, a missing coefficient
    /// counting as zero. Refused when the operands are over different fields.
    pub fn add(self, rhs: Polynomial) -> (r: Result<Polynomial, PolynomialError>)
        ensures
            self.modulus() != rhs.modulus() ==> r is Err && r->Err_0
                == PolynomialError::FieldNotEqual,
            self.modulus() == rhs.modulus() ==> r is Ok,
            r is Ok ==> {
                &&& r->Ok_0.modulus() == self.modulus()
                &&& r->Ok_0@ == add_coeffs(self@, rhs@, self.modulus())
                &&& r->Ok_0.wf()
            },
    {
        if !self.field.same_as(&rhs.field) {
            return Err(PolynomialError::FieldNotEqual);
        }
        let coeffs: Vec<U256> = self.termwise(&rhs, Termwise::Sum);
        proof {
            assert(values(coeffs@) =~= add_coeffs(self@, rhs@, self.modulus()));
        }
        Ok(Polynomial { coeffs, field: self.field })
    }

    /// The termwise difference: as `add`, with the difference of the two
    /// coefficients in the field.
    pub fn sub(self, rhs: Polynomial) -> (r: Result<Polynomial, PolynomialError>)
        ensures
            self.modulus() != rhs.modulus() ==> r is Err && r->Err_0
                == PolynomialError::FieldNotEqual,
            self.modulus() == rhs.modulus() ==> r is Ok,
            r is Ok ==> {
                &&& r->Ok_0.modulus() == self.modulus()
                &&& r->Ok_0@ == sub_coeffs(self@, rhs@, self.modulus())
                &&& r->Ok_0.wf()
            },
    {
        if !self.field.same_as(&rhs.field) {
            return Err(PolynomialError::FieldNotEqual);
        }
        let coeffs: Vec<U256> = self.termwise(&rhs, Termwise::Difference);
        proof {
            assert(values(coeffs@) =~= sub_coeffs(self@, rhs@, self.modulus()));
        }
        Ok(Polynomial { coeffs, field: self.field })
    }

    /// The termwise product: as `add`, with the product of the two
    /// coefficients in the field. This multiplies coefficient by coefficient;
    /// it is not the product of the two polynomials as functions.
    pub fn mult(self, rhs: Polynomial) -> (r: Result<Polynomial, PolynomialError>)
        ensures
            self.modulus() != rhs.modulus() ==> r is Err && r->Err_0
                == PolynomialError::FieldNotEqual,
            self.modulus() == rhs.modulus() ==> r is Ok,
            r is Ok ==> {
                &&& r->Ok_0.modulus() == self.modulus()
                &&& r->Ok_0@ == mult_coeffs(self@, rhs@, self.modulus())
                &&& r->Ok_0.wf()
            },
    {
        if !self.field.same_as(&rhs.field) {
            return Err(PolynomialError::FieldNotEqual);
        }
        let coeffs: Vec<U256> = self.termwise(&rhs, Termwise::Product);
        proof {
            assert(values(coeffs@) =~= mult_coeffs(self@, rhs@, self.modulus()));
        }
        Ok(Polynomial { coeffs, field: self.field })
    }

    /// The value of the polynomial at `x` in the field, carried as a machine
    /// word: the terms are added up while the power of `x` is multiplied
    /// along.
    fn value_at(&self, x: u64) -> (r: u64)
        ensures
            r == eval(self@, x as nat, self.modulus()),
    {
        let m: u64 = self.field.modulus();
        let n: usize = self.coeffs.len();
        let mut value: u64 = 0;
        let mut power: u64 = 1;
        let mut i: usize = 0;
        proof {
            assert(self@.take(0) =~= Seq::<nat>::empty());
            assert(poly_value(self@.take(0), x as nat) == 0);
            lemma_small_mod(0, m as nat);
            lemma_pow0(x as int);
        }
        while i < n
            invariant
                n == self.coeffs.len(),
                i <= n,
                m == self.modulus(),
                m > 0,
                value == eval(self@.take(i as int), x as nat, m as nat),
                power % m == mod_pow(x as nat, i as nat, m as nat),
            decreases n - i,
        {
            let c: u64 = self.field.residue(&self.coeffs[i]);
            proof {
                lemma_eval_step(self@, x as nat, m as nat, i as int, value as nat, power as nat);
            }
            value = self.field.add(value, self.field.mult(c, power));
            power = self.field.mult(power, x);
            i = i + 1;
        }
        assert(self@.take(n as int) =~= self@);
        value
    }

    /// The roots among the candidates `0, 1, .., modulus - 1`, by trying each
    /// in turn: a candidate `x` at which the polynomial is zero in the field
    /// is recorded as `x` reduced modulo the field's modulus, in ascending
    /// order of `x`. The search range is the caller's and is not held against
    /// the field's own modulus; it has to fit the machine's word.
    pub fn find_roots(&self, modulus: U256) -> (roots: Vec<U256>)
        requires
            u256_value(modulus) <= usize::MAX,
        ensures
            values(roots@) == roots_below(self@, self.modulus(), u256_value(modulus)),
    {
        let n: u64 = u256_as_u64(&modulus);
        let mut roots: Vec<U256> = Vec::new();
        let mut x: u64 = 0;
        assert(values(roots@) =~= Seq::<nat>::empty());
        while x < n
            invariant
                x <= n,
                values(roots@) == roots_below(self@, self.modulus(), x as nat),
            decreases n - x,
        {
            let value: u64 = self.value_at(x);
            if value == 0 {
                let root: U256 = self.field.self_mod(u256_from_u64(x));
                let ghost before: Seq<U256> = roots@;
                roots.push(root);
                assert(values(roots@) =~= values(before).push(u256_value(root)));
            }
            x = x + 1;
        }
        roots
    }

    /// `find_roots` for any search range: `None` where the range does not fit
    /// the machine's word, and nothing is searched then.
    pub fn find_roots_checked(&self, modulus: U256) -> (r: Option<Vec<U256>>)
        ensures
            r is Some <==> u256_value(modulus) <= usize::MAX,
            r is Some ==> values(r->Some_0@) == roots_below(
                self@,
                self.modulus(),
                u256_value(modulus),
            ),
    {
        let limit: U256 = u256_from_u64(usize::MAX as u64);
        if u256_le(&modulus, &limit) {
            Some(self.find_roots(modulus))
        } else {
            None
        }
    }
}

} // verus!
