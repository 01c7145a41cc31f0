//! Elements of the prime field, held as reduced 16-bit integers.

use vstd::prelude::*;
use vstd::arithmetic::div_mod::{
    lemma_fundamental_div_mod,
    lemma_mod_multiples_vanish,
    lemma_mul_mod_noop_general,
    lemma_small_mod,
};
use vstd::arithmetic::power::{lemma_pow0, lemma_pow1, lemma_pow_adds, pow};
use vstd::std_specs::ops::{AddSpecImpl, MulSpecImpl, NegSpecImpl, SubSpecImpl};
use crate::arithmetic::field::{
    inverse,
    is_inverse,
    lemma_inverse_unique,
    lemma_modulus_is_prime,
    p,
    MODULUS,
};

verus! {

/// An element of the field of integers modulo [`MODULUS`].
///
/// The stored value is always below the modulus, so two elements are equal
/// exactly when they hold the same number.
#[derive(Clone, Copy, Debug)]
pub struct ModularInteger {
    value: u16,
}

impl View for ModularInteger {
    type V = int;

    /// The residue in `[0, p)` that this element stands for.
    closed spec fn view(&self) -> int {
        self.value as int % p()
    }
}

/// The residues that a sequence of field elements stands for.
pub open spec fn residues(s: Seq<ModularInteger>) -> Seq<int> {
    s.map_values(|c: ModularInteger| c@)
}

impl ModularInteger {
    #[verifier::type_invariant]
    spec fn reduced(self) -> bool {
        self.value < MODULUS
    }

    /// The element that `n` reduces to.
    pub fn new(n: u16) -> (r: Self)
        ensures
            r@ == n as int % p(),
    {
        if n >= MODULUS {
            ModularInteger { value: n - MODULUS }
        } else {
            ModularInteger { value: n }
        }
    }

    /// The residue as a number in `[0, MODULUS)`.
    pub fn value(&self) -> (r: u16)
        ensures
            r as int == self@,
            r < MODULUS,
    {
        proof {
            use_type_invariant(self);
        }
        self.value
    }

    /// The modulus of the field, the same for every element.
    pub fn modulus(&self) -> (r: u16)
        ensures
            r == MODULUS,
    {
        MODULUS
    }

    /// Whether this is the additive identity.
    pub fn is_zero(&self) -> (r: bool)
        ensures
            r == (self@ == 0),
    {
        proof {
            use_type_invariant(self);
        }
        self.value == 0
    }

    /// Every element stands for a residue in `[0, p)`.
    pub proof fn lemma_range(a: Self)
        ensures
            0 <= a@ < p(),
    {
    }

    /// `self` raised to `exp`, by repeated squaring.
    pub fn pow(self, exp: u32) -> (r: Self)
        ensures
            r@ == pow(self@, exp as nat) % p(),
    {
        proof {
            use_type_invariant(self);
        }
        let mut result: u32 = 1;
        let mut base: u32 = self.value as u32;
        let mut e: u32 = exp;
        proof {
            lemma_pow0(self@);
            lemma_pow1(self@);
            lemma_small_mod(self@ as nat, p() as nat);
        }
        while e > 0
            invariant
                result < MODULUS,
                base < MODULUS,
                exists|k: nat|
                    #![trigger pow(self@, k)]
                    base as int == pow(self@, k) % p() && (result as int * pow(
                        pow(self@, k),
                        e as nat,
                    )) % p() == pow(self@, exp as nat) % p(),
            decreases e,
        {
            let ghost k: nat = choose|k: nat|
                #![trigger pow(self@, k)]
                base as int == pow(self@, k) % p() && (result as int * pow(pow(self@, k), e as nat))
                    % p() == pow(self@, exp as nat) % p();
            let ghost old_result: int = result as int;
            let ghost old_e: nat = e as nat;
            proof {
                lemma_product_fits(result as int, base as int);
                lemma_product_fits(base as int, base as int);
            }
            if e % 2 == 1 {
                result = (result * base) % (MODULUS as u32);
            }
            base = (base * base) % (MODULUS as u32);
            e = e / 2;
            proof {
                lemma_square_step(self@, k, old_result, old_e, result as int, base as int);
            }
        }
        proof {
            let k: nat = choose|k: nat|
                #![trigger pow(self@, k)]
                base as int == pow(self@, k) % p() && (result as int * pow(pow(self@, k), e as nat))
                    % p() == pow(self@, exp as nat) % p();
            lemma_pow0(pow(self@, k));
            lemma_small_mod(result as nat, p() as nat);
        }
        ModularInteger { value: result as u16 }
    }

    /// The multiplicative inverse of a nonzero element.
    pub fn inv(self) -> (r: Self)
        requires
            self@ != 0,
        ensures
            is_inverse(self@, r@),
            r@ == inverse(self@),
    {
        proof {
            use_type_invariant(self);
        }
        let mut acc: u32 = 1;
        let mut j: u32 = self.value as u32;
        proof {
            lemma_small_mod(self@ as nat, p() as nat);
        }
        while j > 1
            invariant
                0 < j < MODULUS,
                acc < MODULUS,
                (self@ * acc as int) % p() == j as int,
            decreases j,
        {
            let q: u32 = (MODULUS as u32) / j;
            let r: u32 = (MODULUS as u32) % j;
            proof {
                lemma_product_fits(acc as int, MODULUS as int - q as int);
            }
            let next: u32 = (acc * (MODULUS as u32 - q)) % (MODULUS as u32);
            proof {
                lemma_modulus_is_prime(j as int);
                lemma_inverse_step(self@, acc as int, j as int, next as int);
            }
            acc = next;
            j = r;
        }
        proof {
            lemma_small_mod(acc as nat, p() as nat);
            lemma_inverse_unique(self@, acc as int, acc as int);
        }
        ModularInteger { value: acc as u16 }
    }
}

/// The product of two numbers up to the modulus fits in 32 bits.
proof fn lemma_product_fits(a: int, b: int)
    requires
        0 <= a <= p(),
        0 <= b <= p(),
    ensures
        0 <= a * b <= 0xffff_ffff,
{
    assert(0 <= a * b <= 65_521 * 65_521) by (nonlinear_arith)
        requires
            0 <= a <= 65_521,
            0 <= b <= 65_521,
    ;
}

/// One round of repeated squaring keeps the running product on target.
proof fn lemma_square_step(a: int, k: nat, result: int, e: nat, new_result: int, new_base: int)
    requires
        0 <= result < p(),
        new_result == if e % 2 == 1 {
            (result * (pow(a, k) % p())) % p()
        } else {
            result
        },
        new_base == ((pow(a, k) % p()) * (pow(a, k) % p())) % p(),
    ensures
        new_base == pow(a, 2 * k) % p(),
        (new_result * pow(pow(a, 2 * k), e / 2)) % p() == (result * pow(pow(a, k), e)) % p(),
{
    let b = pow(a, k);
    let h = e / 2;
    lemma_pow_adds(a, k, k);
    assert(pow(a, 2 * k) == b * b);
    lemma_mul_mod_noop_general(b, b, p());
    lemma_pow_square(b, h);
    let t = pow(b, 2 * h);
    assert(pow(b * b, h) == t);
    if e % 2 == 1 {
        assert(e == 2 * h + 1);
        lemma_pow_adds(b, 2 * h, 1);
        lemma_pow1(b);
        assert(pow(b, e) == t * b);
        lemma_mul_mod_noop_general(result, b, p());
        assert(new_result == (result * b) % p());
        lemma_mul_mod_noop_general(result * b, t, p());
        lemma_small_mod(new_result as nat, p() as nat);
        assert((new_result * t) % p() == ((result * b) * t) % p()) by {
            lemma_mul_mod_noop_general(new_result, t, p());
        }
        assert((result * b) * t == result * (t * b)) by (nonlinear_arith);
    } else {
        assert(e == 2 * h);
    }
}

/// Squaring the base halves the exponent.
proof fn lemma_pow_square(b: int, h: nat)
    ensures
        pow(b * b, h) == pow(b, 2 * h),
    decreases h,
{
    if h == 0 {
        lemma_pow0(b * b);
        lemma_pow0(b);
    } else {
        lemma_pow_square(b, (h - 1) as nat);
        lemma_pow_adds(b * b, (h - 1) as nat, 1);
        lemma_pow1(b * b);
        lemma_pow_adds(b, (2 * (h - 1)) as nat, 2);
        lemma_pow_adds(b, 1, 1);
        lemma_pow1(b);
    }
}

/// One round of the inverse computation: with `p = q * j + r`, multiplying
/// the accumulator by `-q` turns `a * acc` from congruent to `j` into
/// congruent to `r`.
proof fn lemma_inverse_step(a: int, acc: int, j: int, next: int)
    requires
        0 < j < p(),
        0 <= acc < p(),
        (a * acc) % p() == j,
        next == (acc * (p() - p() / j)) % p(),
    ensures
        (a * next) % p() == p() % j,
{
    let q = p() / j;
    let r = p() % j;
    lemma_fundamental_div_mod(p(), j);
    lemma_fundamental_div_mod(a * acc, p());
    let m = (a * acc) / p();
    // a * acc * (p - q) == (p * m + j) * (p - q) == p * (m * (p - q) + j) - q * j
    //                   == p * (m * (p - q) + j - 1) + r
    let w = m * (p() - q) + j - 1;
    assert(a * (acc * (p() - q)) == w * p() + r) by (nonlinear_arith)
        requires
            a * acc == p() * m + j,
            p() == j * q + r,
            w == m * (p() - q) + j - 1,
    ;
    lemma_mod_multiples_vanish(w, r, p());
    lemma_small_mod(r as nat, p() as nat);
    assert((a * (acc * (p() - q))) % p() == r);
    lemma_mul_mod_noop_general(a, acc * (p() - q), p());
    lemma_mul_mod_noop_general(a, next, p());
    lemma_small_mod(next as nat, p() as nat);
}

impl PartialEq for ModularInteger {
    fn eq(&self, other: &Self) -> (r: bool) {
        proof {
            use_type_invariant(self);
            use_type_invariant(other);
        }
        self.value == other.value
    }
}

impl Eq for ModularInteger {

}

impl vstd::std_specs::cmp::PartialEqSpecImpl for ModularInteger {
    open spec fn obeys_eq_spec() -> bool {
        true
    }

    open spec fn eq_spec(&self, other: &Self) -> bool {
        self@ == other@
    }
}

impl PartialEq<u16> for ModularInteger {
    fn eq(&self, other: &u16) -> (r: bool) {
        proof {
            use_type_invariant(self);
        }
        self.value == *other
    }
}

impl vstd::std_specs::cmp::PartialEqSpecImpl<u16> for ModularInteger {
    open spec fn obeys_eq_spec() -> bool {
        true
    }

    open spec fn eq_spec(&self, other: &u16) -> bool {
        self@ == *other
    }
}

impl core::ops::Add for ModularInteger {
    type Output = ModularInteger;

    /// The sum in the field.
    fn add(self, rhs: ModularInteger) -> (r: ModularInteger)
        ensures
            r@ == (self@ + rhs@) % p(),
    {
        proof {
            use_type_invariant(self);
            use_type_invariant(rhs);
        }
        let sum: u32 = self.value as u32 + rhs.value as u32;
        ModularInteger { value: (sum % (MODULUS as u32)) as u16 }
    }
}

impl AddSpecImpl for ModularInteger {
    open spec fn obeys_add_spec() -> bool {
        true
    }

    open spec fn add_req(self, rhs: ModularInteger) -> bool {
        true
    }

    closed spec fn add_spec(self, rhs: ModularInteger) -> ModularInteger {
        ModularInteger { value: ((self.value + rhs.value) % 65_521) as u16 }
    }
}

impl core::ops::Sub for ModularInteger {
    type Output = ModularInteger;

    /// The difference in the field.
    fn sub(self, rhs: ModularInteger) -> (r: ModularInteger)
        ensures
            r@ == (self@ - rhs@) % p(),
    {
        proof {
            use_type_invariant(self);
            use_type_invariant(rhs);
        }
        let lifted: u32 = self.value as u32 + MODULUS as u32 - rhs.value as u32;
        proof {
            lemma_mod_multiples_vanish(1, self@ - rhs@, p());
        }
        ModularInteger { value: (lifted % (MODULUS as u32)) as u16 }
    }
}

impl SubSpecImpl for ModularInteger {
    open spec fn obeys_sub_spec() -> bool {
        true
    }

    open spec fn sub_req(self, rhs: ModularInteger) -> bool {
        true
    }

    closed spec fn sub_spec(self, rhs: ModularInteger) -> ModularInteger {
        ModularInteger { value: ((self.value - rhs.value) % 65_521) as u16 }
    }
}

impl core::ops::Mul for ModularInteger {
    type Output = ModularInteger;

    /// The product in the field.
    fn mul(self, rhs: ModularInteger) -> (r: ModularInteger)
        ensures
            r@ == (self@ * rhs@) % p(),
    {
        proof {
            use_type_invariant(self);
            use_type_invariant(rhs);
            lemma_product_fits(self@, rhs@);
        }
        let product: u32 = self.value as u32 * rhs.value as u32;
        ModularInteger { value: (product % (MODULUS as u32)) as u16 }
    }
}

impl MulSpecImpl for ModularInteger {
    open spec fn obeys_mul_spec() -> bool {
        true
    }

    open spec fn mul_req(self, rhs: ModularInteger) -> bool {
        true
    }

    closed spec fn mul_spec(self, rhs: ModularInteger) -> ModularInteger {
        ModularInteger { value: ((self.value * rhs.value) % 65_521) as u16 }
    }
}

impl core::ops::Neg for ModularInteger {
    type Output = ModularInteger;

    /// The additive inverse: `p - v` for a nonzero `v`, and zero for zero.
    fn neg(self) -> (r: ModularInteger)
        ensures
            r@ == (-self@) % p(),
            r@ == if self@ == 0 {
                0
            } else {
                p() - self@
            },
    {
        proof {
            use_type_invariant(self);
            if self@ != 0 {
                lemma_mod_multiples_vanish(1, -self@, p());
                lemma_small_mod((p() - self@) as nat, p() as nat);
            }
        }
        if self.value == 0 {
            self
        } else {
            ModularInteger { value: MODULUS - self.value }
        }
    }
}

impl NegSpecImpl for ModularInteger {
    open spec fn obeys_neg_spec() -> bool {
        true
    }

    open spec fn neg_req(self) -> bool {
        true
    }

    closed spec fn neg_spec(self) -> ModularInteger {
        ModularInteger { value: ((-self.value) % 65_521) as u16 }
    }
}

} // verus!
