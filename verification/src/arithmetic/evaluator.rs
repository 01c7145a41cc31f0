//! Evaluation and root finding for monic polynomials over the field.

use vstd::prelude::*;
use vstd::arithmetic::div_mod::{lemma_add_mod_noop, lemma_mul_mod_noop_general, lemma_small_mod};
use vstd::string::StringExecFns;
use crate::arithmetic::field::{p, MODULUS};
use crate::arithmetic::modint::{residues, ModularInteger};

verus! {

/// The value at `x`, over the integers, of the monic polynomial whose
/// coefficients below the leading one are `c`, highest power first: for
/// `c = [a, b]` this is `x^2 + a*x + b`.
pub open spec fn monic_value(c: Seq<int>, x: int) -> int
    decreases c.len(),
{
    if c.len() == 0 {
        1
    } else {
        monic_value(c.drop_last(), x) * x + c.last()
    }
}

/// `x` is a root, in the field, of the monic polynomial with coefficients `c`.
pub open spec fn is_root(c: Seq<int>, x: int) -> bool {
    monic_value(c, x) % p() == 0
}

/// The numbers `0, 1, ..., n - 1`.
pub open spec fn numbers_below(n: int) -> Seq<u16> {
    Seq::new(n as nat, |i: int| i as u16)
}

/// The roots in `[0, n)` of the monic polynomial with coefficients `c`, in
/// ascending order.
pub open spec fn roots_below(c: Seq<int>, n: int) -> Seq<u16> {
    numbers_below(n).filter(|x: u16| is_root(c, x as int))
}

/// All the distinct roots in the field, in ascending order.
pub open spec fn field_roots(c: Seq<int>) -> Seq<u16> {
    roots_below(c, p())
}

/// Reducing the argument first does not change the value in the field.
pub proof fn lemma_monic_value_congruent(c: Seq<int>, x: int, y: int)
    requires
        x % p() == y % p(),
    ensures
        monic_value(c, x) % p() == monic_value(c, y) % p(),
    decreases c.len(),
{
    if c.len() > 0 {
        let a = monic_value(c.drop_last(), x);
        let b = monic_value(c.drop_last(), y);
        lemma_monic_value_congruent(c.drop_last(), x, y);
        lemma_mul_mod_noop_general(a, x, p());
        lemma_mul_mod_noop_general(b, y, p());
        lemma_add_mod_noop(a * x, c.last(), p());
        lemma_add_mod_noop(b * y, c.last(), p());
    }
}

/// Scanning one more residue appends it where it is a root.
pub proof fn lemma_roots_below_step(c: Seq<int>, n: int)
    requires
        0 <= n < 0x1_0000,
    ensures
        roots_below(c, n + 1) == if is_root(c, n) {
            roots_below(c, n).push(n as u16)
        } else {
            roots_below(c, n)
        },
        roots_below(c, 0) == Seq::<u16>::empty(),
{
    let pred = |x: u16| is_root(c, x as int);
    assert(numbers_below(n + 1) =~= numbers_below(n).push(n as u16));
    numbers_below(n).lemma_filter_push(n as u16, pred);
    assert(numbers_below(0) =~= Seq::<u16>::empty());
    numbers_below(0).lemma_filter_len(pred);
}

/// What `roots_below` lists: every root below `n` once, and nothing else.
pub proof fn lemma_roots_below(c: Seq<int>, n: int)
    requires
        0 <= n <= 0x1_0000,
    ensures
        roots_below(c, n).no_duplicates(),
        forall|i: int|
            0 <= i < roots_below(c, n).len() ==> (#[trigger] roots_below(c, n)[i]) < n && is_root(
                c,
                roots_below(c, n)[i] as int,
            ),
        forall|x: u16| x < n && is_root(c, x as int) ==> #[trigger] roots_below(c, n).contains(x),
    decreases n,
{
    if n == 0 {
        lemma_roots_below_step(c, 0);
    } else {
        lemma_roots_below(c, n - 1);
        lemma_roots_below_step(c, n - 1);
        let before = roots_below(c, n - 1);
        let after = roots_below(c, n);
        assert forall|x: u16| x < n && is_root(c, x as int) implies #[trigger] after.contains(
            x,
        ) by {
            if x < n - 1 {
                assert(before.contains(x));
                let i = choose|i: int| 0 <= i < before.len() && before[i] == x;
                assert(after[i] == x);
            } else {
                assert(after[after.len() - 1] == x);
            }
        }
    }
}

/// Evaluates and factors monic polynomials over the field.
pub struct MonicPolynomialEvaluator {}

impl MonicPolynomialEvaluator {
    /// Evaluates at `x` the monic polynomial whose coefficients below the
    /// leading one are `coeffs`. The last element is the constant term, and
    /// the number of coefficients is the degree.
    pub fn eval(coeffs: &Vec<ModularInteger>, x: u16) -> (r: ModularInteger)
        requires
            coeffs@.len() > 0,
        ensures
            r@ == monic_value(residues(coeffs@), x as int) % p(),
    {
        let size = coeffs.len();
        let x_mod = ModularInteger::new(x);
        let ghost c = residues(coeffs@);
        let mut result = x_mod;
        proof {
            assert(c.take(0) =~= Seq::<int>::empty());
            assert(monic_value(c.take(0), x as int) * x == x) by (nonlinear_arith)
                requires
                    monic_value(c.take(0), x as int) == 1,
            ;
        }
        for i in 0..(size - 1)
            invariant
                size == coeffs@.len(),
                size > 0,
                c == residues(coeffs@),
                x_mod@ == x as int % p(),
                result@ == (monic_value(c.take(i as int), x as int) * x) % p(),
        {
            let ghost before = monic_value(c.take(i as int), x as int) * x;
            let ghost next = monic_value(c.take(i + 1), x as int);
            proof {
                assert(c.take(i + 1).drop_last() =~= c.take(i as int));
                assert(c.take(i + 1).last() == coeffs@[i as int]@);
                assert(next == before + coeffs@[i as int]@);
                lemma_add_mod_noop(before, coeffs@[i as int]@, p());
                ModularInteger::lemma_range(coeffs@[i as int]);
                lemma_small_mod(coeffs@[i as int]@ as nat, p() as nat);
                lemma_mul_mod_noop_general(next, x as int, p());
            }
            result = result + coeffs[i];
            result = result * x_mod;
        }
        proof {
            let before = monic_value(c.take(size - 1), x as int) * x;
            assert(c.drop_last() =~= c.take(size - 1));
            assert(c.last() == coeffs@[size - 1]@);
            lemma_add_mod_noop(before, c.last(), p());
            ModularInteger::lemma_range(coeffs@[size - 1]);
            lemma_small_mod(c.last() as nat, p() as nat);
        }
        result + coeffs[size - 1]
    }

    /// Finds the roots of the monic polynomial with coefficients `coeffs` by
    /// trying every element of the field.
    ///
    /// Succeeds exactly when the polynomial has as many distinct roots in the
    /// field as its degree, and then returns them in ascending order.
    pub fn factor(coeffs: &Vec<ModularInteger>) -> (r: Result<Vec<u16>, String>)
        requires
            coeffs@.len() > 0,
        ensures
            match r {
                Ok(roots) => roots@ == field_roots(residues(coeffs@)) && roots@.len()
                    == coeffs@.len(),
                Err(reason) => field_roots(residues(coeffs@)).len() != coeffs@.len() && reason@
                    == "could not factor polynomial"@,
            },
    {
        let ghost c = residues(coeffs@);
        let mut roots: Vec<u16> = Vec::new();
        let mut x: u16 = 0;
        proof {
            lemma_roots_below_step(c, 0);
        }
        while x < MODULUS
            invariant
                x <= MODULUS,
                coeffs@.len() > 0,
                c == residues(coeffs@),
                roots@ == roots_below(c, x as int),
            decreases MODULUS - x,
        {
            let y = MonicPolynomialEvaluator::eval(coeffs, x);
            proof {
                lemma_roots_below_step(c, x as int);
            }
            if y.is_zero() {
                roots.push(x);
            }
            x = x + 1;
        }
        if roots.len() == coeffs.len() {
            Ok(roots)
        } else {
            Err(String::from_str("could not factor polynomial"))
        }
    }
}

} // verus!
