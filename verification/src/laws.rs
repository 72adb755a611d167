//! What holds of the polynomial operations as a whole, stated over the same
//! mathematical functions that the operations' contracts use.

use crate::model::{
    add_coeffs, coeff_at, eval, in_field, mult_coeffs, poly_value, reduce, roots_below,
    sub_coeffs,
};
use vstd::arithmetic::div_mod::{
    lemma_add_mod_noop, lemma_mod_bound, lemma_mul_mod_noop_general, lemma_small_mod,
};
use vstd::arithmetic::power::{lemma_pow_mod_noop, pow};
use vstd::prelude::*;
use vstd::seq_lib::lemma_seq_contains_after_push;

verus! {

/// Whatever the coefficients, and whatever the positive modulus `m`:
/// reducing them leaves every coefficient in `[0, m)`, and so do the termwise
/// sum, difference and product.
pub proof fn lemma_coefficients_in_field(a: Seq<nat>, b: Seq<nat>, m: nat)
    requires
        m > 0,
    ensures
        in_field(reduce(a, m), m),
        in_field(add_coeffs(a, b, m), m),
        in_field(sub_coeffs(a, b, m), m),
        in_field(mult_coeffs(a, b, m), m),
{
    assert forall|i: int| 0 <= i < reduce(a, m).len() implies #[trigger] reduce(a, m)[i] < m by {
        lemma_mod_bound(a[i] as int, m as int);
    }
    assert forall|i: int| 0 <= i < add_coeffs(a, b, m).len() implies #[trigger] add_coeffs(
        a,
        b,
        m,
    )[i] < m by {
        lemma_mod_bound((coeff_at(a, i) + coeff_at(b, i)) as int, m as int);
    }
    assert forall|i: int| 0 <= i < sub_coeffs(a, b, m).len() implies #[trigger] sub_coeffs(
        a,
        b,
        m,
    )[i] < m by {
        lemma_mod_bound(coeff_at(a, i) - coeff_at(b, i), m as int);
    }
    assert forall|i: int| 0 <= i < mult_coeffs(a, b, m).len() implies #[trigger] mult_coeffs(
        a,
        b,
        m,
    )[i] < m by {
        lemma_mod_bound((coeff_at(a, i) * coeff_at(b, i)) as int, m as int);
    }
}

/// Termwise addition is commutative: the operands may change places.
pub proof fn lemma_add_commutative(a: Seq<nat>, b: Seq<nat>, m: nat)
    ensures
        add_coeffs(a, b, m) == add_coeffs(b, a, m),
{
    assert(add_coeffs(a, b, m) =~= add_coeffs(b, a, m));
}

/// Reducing is idempotent: coefficients that are already in `[0, m)` are left
/// as they are, so reducing a second time changes nothing.
pub proof fn lemma_reduce_idempotent(c: Seq<nat>, m: nat)
    requires
        m > 0,
    ensures
        in_field(c, m) ==> reduce(c, m) == c,
        reduce(reduce(c, m), m) == reduce(c, m),
{
    if in_field(c, m) {
        assert forall|i: int| 0 <= i < c.len() implies c[i] % m == c[i] by {
            assert(c[i] < m);
            lemma_small_mod(c[i], m);
        }
        assert(reduce(c, m) =~= c);
    }
    let r: Seq<nat> = reduce(c, m);
    assert forall|i: int| 0 <= i < r.len() implies r[i] % m == r[i] by {
        lemma_mod_bound(c[i] as int, m as int);
        lemma_small_mod(r[i], m);
    }
    assert(reduce(r, m) =~= r);
}

/// The value in the field depends on the point only through its residue:
/// evaluating at `x mod m` and at `x` gives the same.
pub proof fn lemma_eval_congruent(c: Seq<nat>, x: nat, m: nat)
    requires
        m > 0,
    ensures
        eval(c, x % m, m) == eval(c, x, m),
    decreases c.len(),
{
    if c.len() > 0 {
        let d: Seq<nat> = c.drop_last();
        let k: nat = (c.len() - 1) as nat;
        let y: nat = x % m;
        let mi: int = m as int;
        let top: int = c.last() as int;
        lemma_eval_congruent(d, x, m);
        lemma_pow_mod_noop(x as int, k, mi);
        lemma_mul_mod_noop_general(top, pow(y as int, k), mi);
        lemma_mul_mod_noop_general(top, pow(x as int, k), mi);
        lemma_add_mod_noop(poly_value(d, y), top * pow(y as int, k), mi);
        lemma_add_mod_noop(poly_value(d, x), top * pow(x as int, k), mi);
    }
}

/// What the search over the candidates below `n` returns: exactly the
/// reduced numbers below `n` at which the polynomial is zero in the field.
pub proof fn lemma_roots_characterised(c: Seq<nat>, m: nat, n: nat)
    requires
        m > 0,
    ensures
        forall|y: nat| #[trigger]
            roots_below(c, m, n).contains(y) <==> y < n && y < m && eval(c, y, m) == 0,
    decreases n,
{
    if n == 0 {
        assert forall|y: nat| !#[trigger] roots_below(c, m, n).contains(y) by {}
    } else {
        let x: nat = (n - 1) as nat;
        let prev: Seq<nat> = roots_below(c, m, x);
        let cur: Seq<nat> = roots_below(c, m, n);
        lemma_roots_characterised(c, m, x);
        lemma_eval_congruent(c, x, m);
        lemma_mod_bound(x as int, m as int);
        assert forall|y: nat| #[trigger]
            cur.contains(y) <==> y < n && y < m && eval(c, y, m) == 0 by {
            assert(prev.contains(y) <==> y < x && y < m && eval(c, y, m) == 0);
            if eval(c, x, m) == 0 {
                lemma_seq_contains_after_push(prev, x % m, y);
                if y == x {
                    if y < m {
                        lemma_small_mod(x, m);
                    }
                }
                if y == x % m {
                    assert(y <= x) by {
                        if x < m {
                            lemma_small_mod(x, m);
                        }
                    }
                }
            }
        }
    }
}

/// Root-finding agrees with evaluation. The polynomial is zero in the field
/// at every root returned; and where the search range does not exceed the
/// field (`n <= m`), a candidate below `n` is returned exactly when the
/// polynomial is zero at it, and the roots come out in strictly ascending
/// order.
pub proof fn lemma_roots_agree_with_evaluation(c: Seq<nat>, m: nat, n: nat)
    requires
        m > 0,
    ensures
        forall|i: int|
            0 <= i < roots_below(c, m, n).len() ==> eval(c, #[trigger] roots_below(c, m, n)[i], m)
                == 0,
        n <= m ==> forall|x: nat|
            x < n ==> (#[trigger] roots_below(c, m, n).contains(x) <==> eval(c, x, m) == 0),
        n <= m ==> forall|i: int, j: int|
            0 <= i < j < roots_below(c, m, n).len() ==> #[trigger] roots_below(c, m, n)[i]
                < #[trigger] roots_below(c, m, n)[j],
    decreases n,
{
    let roots: Seq<nat> = roots_below(c, m, n);
    lemma_roots_characterised(c, m, n);
    assert forall|i: int| 0 <= i < roots.len() implies eval(c, #[trigger] roots[i], m) == 0 by {
        assert(roots.contains(roots[i]));
    }
    if n <= m {
        lemma_roots_ascending(c, m, n);
    }
}

/// Within the field's own range the roots come out in strictly ascending
/// order, each below the end of the range searched.
proof fn lemma_roots_ascending(c: Seq<nat>, m: nat, n: nat)
    requires
        m > 0,
        n <= m,
    ensures
        forall|i: int| 0 <= i < roots_below(c, m, n).len() ==> #[trigger] roots_below(c, m, n)[i] < n,
        forall|i: int, j: int|
            0 <= i < j < roots_below(c, m, n).len() ==> #[trigger] roots_below(c, m, n)[i]
                < #[trigger] roots_below(c, m, n)[j],
    decreases n,
{
    if n > 0 {
        let x: nat = (n - 1) as nat;
        let prev: Seq<nat> = roots_below(c, m, x);
        let cur: Seq<nat> = roots_below(c, m, n);
        lemma_roots_ascending(c, m, x);
        lemma_small_mod(x, m);
        assert forall|i: int| 0 <= i < cur.len() implies #[trigger] cur[i] < n by {
            if i < prev.len() {
                assert(cur[i] == prev[i]);
            }
        }
        assert forall|i: int, j: int| 0 <= i < j < cur.len() implies #[trigger] cur[i]
            < #[trigger] cur[j] by {
            assert(cur[i] == prev[i]);
            if j < prev.len() {
                assert(cur[j] == prev[j]);
            }
        }
    }
}

} // verus!
