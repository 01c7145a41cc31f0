//! A table of the powers of every identifier, computed once and then only
//! read, for sketches that are updated often.

use vstd::prelude::*;
use vstd::arithmetic::div_mod::lemma_mul_mod_noop_general;
use vstd::arithmetic::power::{lemma_pow1, lemma_pow_adds, pow};
use crate::arithmetic::field::p;
use crate::arithmetic::modint::ModularInteger;

verus! {

/// For each exponent from 1 to a threshold, the power of each of the 2^16
/// identifiers, as a field element.
pub struct PowerTable {
    rows: Vec<Vec<ModularInteger>>,
}

/// `row` holds the `e`-th power of each identifier below `n`.
spec fn row_filled(row: Seq<ModularInteger>, e: nat, n: int) -> bool {
    forall|x: int| 0 <= x < n ==> (#[trigger] row[x])@ == pow(x, e) % p()
}

impl PowerTable {
    #[verifier::type_invariant]
    spec fn filled(self) -> bool {
        forall|i: int|
            0 <= i < self.rows@.len() ==> (#[trigger] self.rows@[i])@.len() == 0x1_0000
                && row_filled(self.rows@[i]@, (i + 1) as nat, 0x1_0000)
    }

    /// The highest exponent that the table covers.
    pub closed spec fn spec_threshold(&self) -> nat {
        self.rows@.len()
    }

    /// The table for the exponents from 1 to `threshold`.
    pub fn new(threshold: usize) -> (t: Self)
        ensures
            t.spec_threshold() == threshold,
    {
        let mut rows: Vec<Vec<ModularInteger>> = Vec::with_capacity(threshold);
        for i in 0..threshold
            invariant
                rows@.len() == i,
                forall|j: int|
                    0 <= j < i ==> (#[trigger] rows@[j])@.len() == 0x1_0000 && row_filled(
                        rows@[j]@,
                        (j + 1) as nat,
                        0x1_0000,
                    ),
        {
            let mut row: Vec<ModularInteger> = Vec::with_capacity(0x1_0000);
            let mut x: u32 = 0;
            while x < 0x1_0000
                invariant
                    x <= 0x1_0000,
                    rows@.len() == i,
                    row@.len() == x,
                    row_filled(row@, (i + 1) as nat, x as int),
                    i > 0 ==> rows@[i - 1]@.len() == 0x1_0000 && row_filled(
                        rows@[i - 1]@,
                        i as nat,
                        0x1_0000,
                    ),
                decreases 0x1_0000 - x,
            {
                let base = ModularInteger::new(x as u16);
                let value = if i == 0 {
                    base
                } else {
                    rows[i - 1][x as usize] * base
                };
                proof {
                    lemma_pow1(x as int);
                    if i > 0 {
                        assert(rows@[i - 1]@[x as int]@ == pow(x as int, i as nat) % p());
                        lemma_mul_mod_noop_general(pow(x as int, i as nat), x as int, p());
                        lemma_pow_adds(x as int, i as nat, 1);
                    }
                }
                row.push(value);
                x = x + 1;
            }
            rows.push(row);
        }
        PowerTable { rows }
    }

    /// The highest exponent that the table covers.
    pub fn threshold(&self) -> (t: usize)
        ensures
            t == self.spec_threshold(),
    {
        self.rows.len()
    }

    /// `id` raised to `i + 1`, read from the table.
    pub fn power(&self, id: u16, i: usize) -> (r: ModularInteger)
        requires
            i < self.spec_threshold(),
        ensures
            r@ == pow(id as int, (i + 1) as nat) % p(),
    {
        proof {
            use_type_invariant(self);
        }
        self.rows[i][id as usize]
    }
}

} // verus!
