//! The prime modulus and the number theory that the decoder rests on.

use vstd::prelude::*;
use vstd::arithmetic::div_mod::{
    lemma_fundamental_div_mod,
    lemma_mod_multiples_basic,
    lemma_mod_multiples_vanish,
    lemma_mul_mod_noop_general,
    lemma_small_mod,
};
use vstd::arithmetic::mul::{lemma_mul_is_commutative, lemma_mul_is_distributive_sub};

verus! {

/// The largest prime below 2^16. Every field element is kept in `[0, MODULUS)`.
pub const MODULUS: u16 = 65_521;

/// The modulus as a mathematical integer.
pub open spec fn p() -> int {
    65_521
}

/// `a` and `b` name the same field element.
pub open spec fn congruent(a: int, b: int) -> bool {
    a % p() == b % p()
}

/// Nothing from 2 to 255 divides the modulus.
proof fn lemma_no_small_divisor(d: int)
    requires
        2 <= d < 256,
    ensures
        p() % d != 0,
{
    let e: u32 = d as u32;
    assert(2 <= e && e < 256 ==> 65_521u32 % e != 0) by (bit_vector);
}

/// The modulus is prime: nothing strictly between 1 and it divides it.
pub proof fn lemma_modulus_is_prime(d: int)
    requires
        1 < d < p(),
    ensures
        p() % d != 0,
{
    if d < 256 {
        lemma_no_small_divisor(d);
    } else if p() % d == 0 {
        let q = p() / d;
        lemma_fundamental_div_mod(p(), d);
        assert(p() == d * q);
        assert(q >= 2 && q < 256) by (nonlinear_arith)
            requires
                d * q == 65_521,
                256 <= d < 65_521,
        ;
        lemma_no_small_divisor(q);
        lemma_mul_is_commutative(d, q);
        lemma_mod_multiples_basic(d, q);
        assert(false);
    }
}

/// `b` is the multiplicative inverse of `a`, as a residue.
pub open spec fn is_inverse(a: int, b: int) -> bool {
    0 <= b < p() && (a * b) % p() == 1
}

/// The multiplicative inverse of `a`, where `a` is not a multiple of the
/// modulus.
pub open spec fn inverse(a: int) -> int {
    choose|b: int| is_inverse(a, b)
}

/// Euclid's lemma for two nonzero residues: their product is nonzero too.
pub proof fn lemma_nonzero_product(a: int, b: int)
    requires
        0 < a < p(),
        0 < b < p(),
    ensures
        (a * b) % p() != 0,
    decreases a,
{
    if a == 1 {
        assert(a * b == b) by (nonlinear_arith)
            requires
                a == 1,
        ;
        lemma_small_mod(b as nat, p() as nat);
    } else {
        let q = p() / a;
        let r = p() % a;
        lemma_fundamental_div_mod(p(), a);
        lemma_modulus_is_prime(a);
        lemma_nonzero_product(r, b);
        if (a * b) % p() == 0 {
            let m = (a * b) / p();
            lemma_fundamental_div_mod(a * b, p());
            assert(r * b == p() * (b - q * m)) by (nonlinear_arith)
                requires
                    p() == a * q + r,
                    a * b == p() * m,
            ;
            lemma_mod_multiples_basic(b - q * m, p());
            lemma_mul_is_commutative(p(), b - q * m);
            assert(false);
        }
    }
}

/// Euclid's lemma: the modulus divides a product only if it divides a factor.
pub proof fn lemma_zero_product(a: int, b: int)
    requires
        (a * b) % p() == 0,
    ensures
        a % p() == 0 || b % p() == 0,
{
    let x = a % p();
    let y = b % p();
    lemma_mul_mod_noop_general(a, b, p());
    if x != 0 && y != 0 {
        lemma_nonzero_product(x, y);
    }
}

/// A nonzero residue cancels: `a * x` and `a * y` agree only where `x` and `y` do.
pub proof fn lemma_cancel(a: int, x: int, y: int)
    requires
        a % p() != 0,
        congruent(a * x, a * y),
    ensures
        congruent(x, y),
{
    lemma_mul_is_distributive_sub(a, x, y);
    lemma_mod_sub_is_zero(a * x, a * y);
    lemma_zero_product(a, x - y);
    lemma_mod_sub_is_zero_rev(x, y);
}

/// A residue has at most one inverse.
pub proof fn lemma_inverse_unique(a: int, b: int, c: int)
    requires
        is_inverse(a, b),
        is_inverse(a, c),
    ensures
        b == c,
        b == inverse(a),
{
    if a % p() == 0 {
        lemma_mul_mod_noop_general(a, b, p());
        assert((a % p()) * (b % p()) == 0) by (nonlinear_arith)
            requires
                a % p() == 0,
        ;
        assert(false);
    }
    lemma_cancel(a, b, c);
    lemma_small_mod(b as nat, p() as nat);
    lemma_small_mod(c as nat, p() as nat);
    let d = inverse(a);
    lemma_cancel(a, b, d);
    lemma_small_mod(d as nat, p() as nat);
}

/// Every number that is not a multiple of the modulus has an inverse.
pub proof fn lemma_inverse_exists(a: int)
    requires
        a % p() != 0,
    ensures
        is_inverse(a, inverse(a)),
{
    let r = a % p();
    let b = lemma_inverse_of_residue(r);
    lemma_mul_mod_noop_general(a, b, p());
    lemma_small_mod(b as nat, p() as nat);
    assert(is_inverse(a, b));
}

/// An inverse of a nonzero residue `j`, found by descent: with
/// `p = q * j + r`, an inverse of `r` times `-q` is an inverse of `j`.
proof fn lemma_inverse_of_residue(j: int) -> (b: int)
    requires
        0 < j < p(),
    ensures
        is_inverse(j, b),
    decreases j,
{
    if j == 1 {
        lemma_small_mod(1, p() as nat);
        assert(1 * 1 == 1);
        1
    } else {
        let q = p() / j;
        let r = p() % j;
        lemma_fundamental_div_mod(p(), j);
        lemma_modulus_is_prime(j);
        let c = lemma_inverse_of_residue(r);
        let b = ((p() - q) * c) % p();
        // j * (p - q) * c == (j * p - (p - r)) * c == p * (j * c - c) + r * c
        let m = (r * c) / p();
        lemma_fundamental_div_mod(r * c, p());
        let w = j * c - c + m;
        assert(j * ((p() - q) * c) == w * p() + 1) by (nonlinear_arith)
            requires
                p() == j * q + r,
                r * c == p() * m + 1,
                w == j * c - c + m,
        ;
        lemma_mod_multiples_vanish(w, 1, p());
        lemma_small_mod(1, p() as nat);
        lemma_mul_mod_noop_general(j, (p() - q) * c, p());
        lemma_mul_mod_noop_general(j, b, p());
        lemma_small_mod(b as nat, p() as nat);
        b
    }
}

/// Two numbers are congruent exactly when their difference is a multiple of
/// the modulus.
pub proof fn lemma_mod_sub_is_zero(x: int, y: int)
    requires
        congruent(x, y),
    ensures
        (x - y) % p() == 0,
{
    lemma_fundamental_div_mod(x, p());
    lemma_fundamental_div_mod(y, p());
    let k = x / p() - y / p();
    assert(x - y == k * p()) by (nonlinear_arith)
        requires
            x == p() * (x / p()) + x % p(),
            y == p() * (y / p()) + y % p(),
            x % p() == y % p(),
            k == x / p() - y / p(),
    ;
    lemma_mod_multiples_basic(k, p());
}

/// The converse of `lemma_mod_sub_is_zero`.
pub proof fn lemma_mod_sub_is_zero_rev(x: int, y: int)
    requires
        (x - y) % p() == 0,
    ensures
        congruent(x, y),
{
    lemma_fundamental_div_mod(x - y, p());
    let k = (x - y) / p();
    assert(x == y + k * p()) by (nonlinear_arith)
        requires
            x - y == p() * k,
    ;
    lemma_mod_multiples_vanish(k, y, p());
    assert(k * p() + y == y + k * p());
}

} // verus!
