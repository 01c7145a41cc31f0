//! Elementary symmetric polynomials of a list of identifiers, over the
//! integers: Newton's identities, which tie them to the power sums, and
//! Vieta's formulas, which make them the coefficients of the polynomial
//! whose roots are the identifiers.

use vstd::prelude::*;
use vstd::arithmetic::mul::{
    lemma_mul_is_associative,
    lemma_mul_is_commutative,
    lemma_mul_is_distributive_add,
    lemma_mul_is_distributive_add_other_way,
    lemma_mul_is_distributive_sub,
    lemma_mul_unary_negation,
};
use vstd::arithmetic::power::{lemma_pow1, lemma_pow_adds, pow};
use crate::decoder::sign;
use crate::sketch::power_sum;

verus! {

/// The `j`-th elementary symmetric polynomial of `ids`: the sum, over all
/// ways to pick `j` of them, of the product of those picked.
pub open spec fn esp(ids: Seq<u16>, j: int) -> int
    decreases ids.len(),
{
    if j == 0 {
        1
    } else if j < 0 || ids.len() == 0 {
        0
    } else {
        esp(ids.drop_last(), j) + ids.last() as int * esp(ids.drop_last(), j - 1)
    }
}

/// The first `n` terms of the right-hand side of Newton's identity for
/// `e_j`: the sum over `i` from 1 to `n` of `(-1)^(i-1) * e_(j-i) * p_i`.
pub open spec fn alternating_sum(ids: Seq<u16>, j: int, n: int) -> int
    decreases n,
{
    if n <= 0 {
        0
    } else {
        alternating_sum(ids, j, n - 1) + sign(n - 1) * (esp(ids, j - n) * power_sum(ids, n as nat))
    }
}

/// The product of `x - id` over the identifiers.
pub open spec fn product(ids: Seq<u16>, x: int) -> int
    decreases ids.len(),
{
    if ids.len() == 0 {
        1
    } else {
        product(ids.drop_last(), x) * (x - ids.last() as int)
    }
}

/// The polynomial `x^n - e_1 x^(n-1) + ... + (-1)^n e_n`, by Horner's rule.
pub open spec fn horner(ids: Seq<u16>, n: int, x: int) -> int
    decreases n,
{
    if n < 0 {
        0
    } else if n == 0 {
        1
    } else {
        horner(ids, n - 1, x) * x + sign(n) * esp(ids, n)
    }
}

/// With one more identifier `a`, `e_j` grows by `a * e_(j-1)`.
proof fn lemma_esp_step(ids: Seq<u16>, j: int)
    requires
        ids.len() > 0,
        j >= 0,
    ensures
        esp(ids, j) == esp(ids.drop_last(), j) + ids.last() as int * esp(ids.drop_last(), j - 1),
{
    if j == 0 {
        assert(esp(ids.drop_last(), -1) == 0);
        assert(ids.last() as int * 0 == 0);
    }
}

/// No product of more identifiers than there are.
proof fn lemma_esp_beyond(ids: Seq<u16>, j: int)
    requires
        j > ids.len(),
    ensures
        esp(ids, j) == 0,
    decreases ids.len(),
{
    if ids.len() > 0 {
        lemma_esp_beyond(ids.drop_last(), j);
        lemma_esp_beyond(ids.drop_last(), j - 1);
        assert(ids.last() as int * 0 == 0);
    }
}

/// Without identifiers every term of the alternating sum is zero.
proof fn lemma_alternating_sum_empty(ids: Seq<u16>, j: int, n: int)
    requires
        ids.len() == 0,
    ensures
        alternating_sum(ids, j, n) == 0,
    decreases n,
{
    if n > 0 {
        lemma_alternating_sum_empty(ids, j, n - 1);
        assert(power_sum(ids, n as nat) == 0);
        assert(esp(ids, j - n) * 0 == 0) by (nonlinear_arith);
        assert(sign(n - 1) * 0 == 0);
    }
}

/// How the alternating sum changes with one more identifier `x`: to the
/// sum without it come `x` times the sum for `j - 1`, and a telescoping
/// sum of which the first and the last term remain.
proof fn lemma_alternating_sum_step(ids: Seq<u16>, j: int, n: int)
    requires
        ids.len() > 0,
        0 <= n <= j,
    ensures
        alternating_sum(ids, j, n) == alternating_sum(ids.drop_last(), j, n) + ids.last() as int
            * alternating_sum(ids.drop_last(), j - 1, n) + ids.last() as int * esp(
            ids.drop_last(),
            j - 1,
        ) + sign(n - 1) * (esp(ids.drop_last(), j - n - 1) * pow(
            ids.last() as int,
            (n + 1) as nat,
        )),
    decreases n,
{
    let rest = ids.drop_last();
    let x = ids.last() as int;
    let e0 = esp(rest, j - 1);
    if n == 0 {
        lemma_pow1(x);
        assert(sign(-1) == -1);
        assert(x * e0 + (-1) * (e0 * x) == 0) by (nonlinear_arith);
        assert(x * 0 == 0);
    } else {
        lemma_alternating_sum_step(ids, j, n - 1);
        lemma_esp_step(ids, j - n);
        let s = sign(n - 1);
        let a1 = alternating_sum(rest, j, n - 1);
        let a2 = alternating_sum(rest, j - 1, n - 1);
        let e = esp(rest, j - n);
        let e1 = esp(rest, j - n - 1);
        let ps = power_sum(rest, n as nat);
        let xn = pow(x, n as nat);
        let xn1 = pow(x, (n + 1) as nat);
        assert(xn1 == x * xn) by {
            lemma_pow_adds(x, 1, n as nat);
            lemma_pow1(x);
        }
        assert(sign(n - 2) == -s);
        assert(power_sum(ids, n as nat) == ps + xn);
        assert(esp(ids, j - n) == e + x * e1);
        let before = alternating_sum(ids, j, n - 1);
        let lhs = alternating_sum(ids, j, n);
        let r1 = alternating_sum(rest, j, n);
        let r2 = alternating_sum(rest, j - 1, n);
        let w = (e + x * e1) * (ps + xn);
        let t1 = e * ps;
        let t2 = e * xn;
        let u = e1 * ps;
        let xu = x * u;
        let q = x * (e1 * xn);
        let t4 = e1 * xn1;
        let xa2 = x * a2;
        let xe0 = x * e0;
        let xr2 = x * r2;
        assert(before == a1 + xa2 + xe0 + (-s) * t2);
        assert(lhs == before + s * w);
        assert(r1 == a1 + s * t1);
        assert(r2 == a2 + s * u);
        assert(w == t1 + t2 + xu + q) by {
            let y = x * e1;
            lemma_mul_is_distributive_add(e + y, ps, xn);
            lemma_mul_is_distributive_add_other_way(ps, e, y);
            lemma_mul_is_distributive_add_other_way(xn, e, y);
            lemma_mul_is_associative(x, e1, ps);
            lemma_mul_is_associative(x, e1, xn);
        }
        assert(xr2 == xa2 + s * xu) by {
            lemma_mul_is_distributive_add(x, a2, s * u);
            lemma_mul_is_associative(x, s, u);
            lemma_mul_is_commutative(x, s);
            lemma_mul_is_associative(s, x, u);
        }
        assert(t4 == q) by {
            lemma_mul_is_associative(e1, x, xn);
            lemma_mul_is_commutative(e1, x);
            lemma_mul_is_associative(x, e1, xn);
        }
        assert(lhs == r1 + xr2 + xe0 + s * t4) by (nonlinear_arith)
            requires
                lhs == before + s * w,
                before == a1 + xa2 + xe0 + (-s) * t2,
                w == t1 + t2 + xu + q,
                r1 == a1 + s * t1,
                xr2 == xa2 + s * xu,
                t4 == q,
        ;
    }
}

/// Newton's identity: `j * e_j` is the alternating sum of the products
/// `e_(j-i) * p_i` for `i` from 1 to `j`.
pub proof fn lemma_newton_identity(ids: Seq<u16>, j: int)
    requires
        j >= 0,
    ensures
        alternating_sum(ids, j, j) == j * esp(ids, j),
    decreases ids.len(),
{
    if ids.len() == 0 {
        lemma_alternating_sum_empty(ids, j, j);
        if j > 0 {
            assert(j * 0 == 0);
        }
    } else if j == 0 {
    } else {
        let rest = ids.drop_last();
        let x = ids.last() as int;
        lemma_alternating_sum_step(ids, j, j);
        lemma_newton_identity(rest, j);
        lemma_newton_identity(rest, j - 1);
        lemma_esp_step(ids, j);
        let e = esp(rest, j);
        let e0 = esp(rest, j - 1);
        let a1 = alternating_sum(rest, j, j);
        let a2 = alternating_sum(rest, j - 1, j - 1);
        assert(esp(rest, -1) == 0);
        assert(esp(rest, -1) * pow(x, (j + 1) as nat) == 0) by (nonlinear_arith)
            requires
                esp(rest, -1) == 0,
        ;
        assert(esp(rest, -1) * power_sum(rest, j as nat) == 0) by (nonlinear_arith)
            requires
                esp(rest, -1) == 0,
        ;
        let z = esp(rest, -1) * power_sum(rest, j as nat);
        assert(alternating_sum(rest, j - 1, j) == a2 + sign(j - 1) * z);
        assert(sign(j - 1) * z == 0) by (nonlinear_arith)
            requires
                z == 0,
        ;
        assert(alternating_sum(rest, j - 1, j) == a2);
        assert(a1 + x * a2 + x * e0 == j * (e + x * e0)) by (nonlinear_arith)
            requires
                a1 == j * e,
                a2 == (j - 1) * e0,
        ;
    }
}

/// How the polynomial changes with one more identifier `a`: it loses `a`
/// times the polynomial of one degree less.
proof fn lemma_horner_step(ids: Seq<u16>, n: int, x: int)
    requires
        ids.len() > 0,
        n >= 0,
    ensures
        horner(ids, n, x) == horner(ids.drop_last(), n, x) - ids.last() as int * horner(
            ids.drop_last(),
            n - 1,
            x,
        ),
    decreases n,
{
    let rest = ids.drop_last();
    let a = ids.last() as int;
    if n == 0 {
        assert(a * 0 == 0);
    } else {
        lemma_horner_step(ids, n - 1, x);
        lemma_esp_step(ids, n);
        let s = sign(n);
        let h1 = horner(rest, n - 1, x);
        let h2 = horner(rest, n - 2, x);
        let e = esp(rest, n);
        let e1 = esp(rest, n - 1);
        // The polynomial of degree n - 1 by its own definition.
        assert(h1 == h2 * x + (-s) * e1) by {
            if n == 1 {
                assert(0 * x == 0);
            } else {
                assert(sign(n - 1) == -s);
            }
        }
        let ah1 = a * h1;
        let ah2x = (a * h2) * x;
        let ae1 = a * e1;
        assert(horner(ids, n - 1, x) == h1 - a * h2);
        assert(horner(ids, n, x) == (h1 - a * h2) * x + s * (e + ae1));
        assert((h1 - a * h2) * x == h1 * x - ah2x) by {
            lemma_mul_is_distributive_add_other_way(x, h1, -(a * h2));
            lemma_mul_unary_negation(a * h2, x);
        }
        assert(ah1 == ah2x + (-s) * ae1) by {
            lemma_mul_is_distributive_add(a, h2 * x, (-s) * e1);
            lemma_mul_is_associative(a, h2, x);
            lemma_mul_is_associative(a, -s, e1);
            lemma_mul_is_commutative(a, -s);
            lemma_mul_is_associative(-s, a, e1);
        }
        assert(s * (e + ae1) == s * e + s * ae1) by {
            lemma_mul_is_distributive_add(s, e, ae1);
        }
        assert((-s) * ae1 == -(s * ae1)) by {
            lemma_mul_unary_negation(s, ae1);
        }
    }
}

/// Vieta's formulas: the polynomial with the elementary symmetric
/// polynomials as coefficients, with alternating signs, is the product of
/// `x - id` over the identifiers.
pub proof fn lemma_vieta(ids: Seq<u16>, x: int)
    ensures
        horner(ids, ids.len() as int, x) == product(ids, x),
    decreases ids.len(),
{
    if ids.len() > 0 {
        let rest = ids.drop_last();
        let a = ids.last() as int;
        let n = ids.len() as int;
        let h = horner(rest, n - 1, x);
        lemma_vieta(rest, x);
        lemma_horner_step(ids, n, x);
        lemma_esp_beyond(rest, n);
        assert(sign(n) * 0 == 0);
        assert(horner(rest, n, x) == h * x);
        assert(h * x - a * h == h * (x - a)) by {
            lemma_mul_is_distributive_sub(h, x, a);
            lemma_mul_is_commutative(a, h);
        }
    }
}

} // verus!
