//! The power-sum sketch and its snapshots.

use vstd::prelude::*;
use vstd::arithmetic::div_mod::{
    lemma_add_mod_noop_right,
    lemma_mul_mod_noop_general,
    lemma_sub_mod_noop_right,
};
use vstd::arithmetic::power::{lemma_pow1, lemma_pow_adds, pow};
use crate::arithmetic::field::{p, MODULUS};
use crate::arithmetic::modint::{residues, ModularInteger};
use crate::arithmetic::power_table::PowerTable;
use crate::sketch::Sketch;
use crate::{Identifier, Quack};

verus! {

/// A sketch of the identifiers inserted so far: their number, and the sums of
/// their first `threshold` powers in the field.
#[derive(Debug, PartialEq, Eq)]
pub struct PowerSumQuack {
    power_sums: Vec<ModularInteger>,
    count: u16,
}

/// A point-in-time copy of a sketch: the value that is sent, compared and
/// decoded. It is never changed after it was made.
#[derive(Debug, PartialEq, Eq)]
pub struct QuackSnapshot {
    power_sums: Vec<ModularInteger>,
    count: u16,
}

/// Why bytes or numbers from outside are no snapshot.
#[derive(Clone, Copy, Debug, PartialEq, Eq, Structural)]
pub enum SnapshotError {
    /// The bytes end before the snapshot that they announce does.
    Malformed,
    /// There are more or fewer power sums than the threshold asks for.
    WrongThreshold,
    /// Some power sum is not below the modulus, so it is no field element.
    NotReduced,
}

/// The numbers that a sequence of residues holds, as 16-bit words.
pub open spec fn words(sums: Seq<int>) -> Seq<u16> {
    Seq::new(sums.len(), |i: int| sums[i] as u16)
}

/// The residues that a sequence of 16-bit words holds.
pub open spec fn word_values(words: Seq<u16>) -> Seq<int> {
    Seq::new(words.len(), |i: int| words[i] as int)
}

/// Every word is below the modulus.
pub open spec fn all_reduced(words: Seq<u16>) -> bool {
    forall|i: int| 0 <= i < words.len() ==> #[trigger] words[i] < MODULUS
}

impl View for PowerSumQuack {
    type V = Sketch;

    closed spec fn view(&self) -> Sketch {
        Sketch { count: self.count as int, power_sums: residues(self.power_sums@) }
    }
}

impl View for QuackSnapshot {
    type V = Sketch;

    closed spec fn view(&self) -> Sketch {
        Sketch { count: self.count as int, power_sums: residues(self.power_sums@) }
    }
}

/// The residues of a vector of field elements are residues.
proof fn lemma_residues_wf(count: u16, sums: Seq<ModularInteger>)
    ensures
        (Sketch { count: count as int, power_sums: residues(sums) }).wf(),
{
    let s = Sketch { count: count as int, power_sums: residues(sums) };
    assert forall|i: int| 0 <= i < s.power_sums.len() implies 0 <= #[trigger] s.power_sums[i]
        < p() by {
        ModularInteger::lemma_range(sums[i]);
    }
}

/// The next power of `id`, reduced, from the current one.
proof fn lemma_next_power(id: int, i: nat)
    ensures
        ((pow(id, i) % p()) * (id % p())) % p() == pow(id, i + 1) % p(),
{
    lemma_mul_mod_noop_general(pow(id, i), id, p());
    lemma_pow_adds(id, i, 1);
    lemma_pow1(id);
}

impl PowerSumQuack {
    /// What a sketch holds is always well formed.
    pub proof fn lemma_wf(&self)
        ensures
            self@.wf(),
    {
        lemma_residues_wf(self.count, self.power_sums@);
    }

    /// A copy of the sketch as it is now.
    pub fn snapshot(&self) -> (q: QuackSnapshot)
        ensures
            q@ == self@,
    {
        QuackSnapshot { power_sums: copy_elements(&self.power_sums), count: self.count }
    }

    /// Adds `value` as `insert` does, reading the powers from `table`
    /// in place of computing them. The table must cover the threshold.
    pub fn insert_with_table(&mut self, table: &PowerTable, value: Identifier)
        requires
            old(self)@.threshold() <= table.spec_threshold(),
        ensures
            final(self)@ == old(self)@.insert(value),
    {
        self.shift_with_table(table, value, true);
        self.count = self.count.wrapping_add(1);
    }

    /// Takes out `value` as `remove` does, reading the powers from `table`
    /// in place of computing them. The table must cover the threshold.
    pub fn remove_with_table(&mut self, table: &PowerTable, value: Identifier)
        requires
            old(self)@.threshold() <= table.spec_threshold(),
        ensures
            final(self)@ == old(self)@.remove(value),
    {
        self.shift_with_table(table, value, false);
        self.count = self.count.wrapping_sub(1);
    }

    /// Adds the powers of `value`, or takes them out, with the powers read
    /// from `table`.
    fn shift_with_table(&mut self, table: &PowerTable, value: Identifier, adding: bool)
        requires
            old(self)@.threshold() <= table.spec_threshold(),
        ensures
            final(self).count == old(self).count,
            final(self)@.power_sums == if adding {
                old(self)@.insert(value).power_sums
            } else {
                old(self)@.remove(value).power_sums
            },
    {
        let size = self.power_sums.len();
        let ghost before = self.power_sums@;
        for i in 0..size
            invariant
                size == before.len(),
                size <= table.spec_threshold(),
                self.power_sums@.len() == size,
                self.count == old(self).count,
                before == old(self).power_sums@,
                forall|j: int|
                    i <= j < size ==> #[trigger] self.power_sums@[j] == before[j],
                forall|j: int|
                    0 <= j < i ==> (#[trigger] self.power_sums@[j])@ == if adding {
                        (before[j]@ + pow(value as int, (j + 1) as nat)) % p()
                    } else {
                        (before[j]@ - pow(value as int, (j + 1) as nat)) % p()
                    },
        {
            let current = self.power_sums[i];
            let y = table.power(value, i);
            let next = if adding {
                current + y
            } else {
                current - y
            };
            proof {
                let e = (i + 1) as nat;
                if adding {
                    lemma_add_mod_noop_right(current@, pow(value as int, e), p());
                } else {
                    lemma_sub_mod_noop_right(current@, pow(value as int, e), p());
                }
            }
            self.power_sums.set(i, next);
        }
        proof {
            let target = if adding {
                old(self)@.insert(value).power_sums
            } else {
                old(self)@.remove(value).power_sums
            };
            assert(self@.power_sums =~= target);
        }
    }

    /// Adds the powers of `value` to the power sums, or takes them out.
    fn shift(&mut self, value: Identifier, adding: bool)
        ensures
            final(self).count == old(self).count,
            final(self)@.power_sums == if adding {
                old(self)@.insert(value).power_sums
            } else {
                old(self)@.remove(value).power_sums
            },
    {
        let size = self.power_sums.len();
        let x = ModularInteger::new(value);
        let mut y = x;
        let ghost before = self.power_sums@;
        proof {
            lemma_pow1(value as int);
        }
        for i in 0..size
            invariant
                size == before.len(),
                self.power_sums@.len() == size,
                self.count == old(self).count,
                before == old(self).power_sums@,
                x@ == value as int % p(),
                y@ == pow(value as int, (i + 1) as nat) % p(),
                forall|j: int|
                    i <= j < size ==> #[trigger] self.power_sums@[j] == before[j],
                forall|j: int|
                    0 <= j < i ==> (#[trigger] self.power_sums@[j])@ == if adding {
                        (before[j]@ + pow(value as int, (j + 1) as nat)) % p()
                    } else {
                        (before[j]@ - pow(value as int, (j + 1) as nat)) % p()
                    },
        {
            let current = self.power_sums[i];
            let next = if adding {
                current + y
            } else {
                current - y
            };
            proof {
                let e = (i + 1) as nat;
                if adding {
                    lemma_add_mod_noop_right(
                        current@,
                        pow(value as int, e),
                        p(),
                    );
                } else {
                    lemma_sub_mod_noop_right(
                        current@,
                        pow(value as int, e),
                        p(),
                    );
                }
                lemma_next_power(value as int, e);
            }
            self.power_sums.set(i, next);
            y = y * x;
        }
        proof {
            let target = if adding {
                old(self)@.insert(value).power_sums
            } else {
                old(self)@.remove(value).power_sums
            };
            assert(self@.power_sums =~= target);
        }
    }
}

/// A copy of a vector of field elements.
fn copy_elements(v: &Vec<ModularInteger>) -> (r: Vec<ModularInteger>)
    ensures
        r@ == v@,
{
    let mut r: Vec<ModularInteger> = Vec::with_capacity(v.len());
    for i in 0..v.len()
        invariant
            r@ == v@.take(i as int),
    {
        r.push(v[i]);
        proof {
            assert(v@.take(i + 1) =~= v@.take(i as int).push(v@[i as int]));
        }
    }
    proof {
        assert(v@.take(v@.len() as int) =~= v@);
    }
    r
}

impl Quack for PowerSumQuack {
    open spec fn spec_threshold(&self) -> nat {
        self@.threshold()
    }

    open spec fn spec_count(&self) -> int {
        self@.count
    }

    /// An empty sketch: a zero counter and `threshold` zero power sums.
    fn new(threshold: usize) -> (q: Self)
        ensures
            q@ == Sketch::empty(threshold as nat),
    {
        let mut power_sums: Vec<ModularInteger> = Vec::with_capacity(threshold);
        let zero = ModularInteger::new(0);
        for i in 0..threshold
            invariant
                zero@ == 0,
                power_sums@.len() == i,
                forall|j: int| 0 <= j < i ==> (#[trigger] power_sums@[j])@ == 0,
        {
            power_sums.push(zero);
        }
        let q = PowerSumQuack { power_sums, count: 0 };
        proof {
            assert(q@.power_sums =~= Sketch::empty(threshold as nat).power_sums);
        }
        q
    }

    /// Adds `value^i` to the `i`-th power sum, for each `i` up to the
    /// threshold, and one to the counter, which wraps at 2^16.
    fn insert(&mut self, value: Identifier)
        ensures
            final(self)@ == old(self)@.insert(value),
    {
        self.shift(value, true);
        self.count = self.count.wrapping_add(1);
    }

    /// The exact inverse of `insert`.
    fn remove(&mut self, value: Identifier)
        ensures
            final(self)@ == old(self)@.remove(value),
    {
        self.shift(value, false);
        self.count = self.count.wrapping_sub(1);
    }

    fn threshold(&self) -> (t: usize) {
        self.power_sums.len()
    }

    fn count(&self) -> (c: u16) {
        self.count
    }
}

impl QuackSnapshot {
    /// What a snapshot holds is always well formed.
    pub proof fn lemma_wf(&self)
        ensures
            self@.wf(),
    {
        lemma_residues_wf(self.count, self.power_sums@);
    }

    /// The number of power sums in the snapshot.
    pub fn threshold(&self) -> (t: usize)
        ensures
            t == self@.threshold(),
    {
        self.power_sums.len()
    }

    /// The counter at the time of the snapshot.
    pub fn count(&self) -> (c: u16)
        ensures
            c == self@.count,
    {
        self.count
    }

    /// The field-wise difference of two snapshots with the same threshold.
    /// Where everything in `rhs` is also in `self`, this is the sketch of
    /// what `self` holds beyond `rhs`.
    pub fn sub(&self, rhs: &QuackSnapshot) -> (r: QuackSnapshot)
        requires
            self@.threshold() == rhs@.threshold(),
        ensures
            r@ == self@.minus(rhs@),
    {
        let size = self.power_sums.len();
        let mut power_sums: Vec<ModularInteger> = Vec::with_capacity(size);
        for i in 0..size
            invariant
                size == self.power_sums@.len(),
                size == rhs.power_sums@.len(),
                power_sums@.len() == i,
                forall|j: int|
                    0 <= j < i ==> (#[trigger] power_sums@[j])@ == (self.power_sums@[j]@
                        - rhs.power_sums@[j]@) % p(),
        {
            power_sums.push(self.power_sums[i] - rhs.power_sums[i]);
        }
        let r = QuackSnapshot { power_sums, count: self.count.wrapping_sub(rhs.count) };
        proof {
            assert(r@.power_sums =~= self@.minus(rhs@).power_sums);
        }
        r
    }

    /// The snapshot with the given counter and power sums, for a receiver
    /// that expects `threshold` power sums. Each power sum must be a field
    /// element, that is, below the modulus.
    pub fn from_parts(count: u16, sums: Vec<u16>, threshold: usize) -> (r: Result<
        QuackSnapshot,
        SnapshotError,
    >)
        ensures
            match r {
                Ok(q) => sums@.len() == threshold && all_reduced(sums@) && q@ == (Sketch {
                    count: count as int,
                    power_sums: word_values(sums@),
                }),
                Err(SnapshotError::WrongThreshold) => sums@.len() != threshold,
                Err(SnapshotError::NotReduced) => sums@.len() == threshold && !all_reduced(sums@),
                Err(SnapshotError::Malformed) => false,
            },
    {
        if sums.len() != threshold {
            return Err(SnapshotError::WrongThreshold);
        }
        let mut power_sums: Vec<ModularInteger> = Vec::with_capacity(threshold);
        for i in 0..sums.len()
            invariant
                sums@.len() == threshold,
                power_sums@.len() == i,
                forall|j: int| 0 <= j < i ==> #[trigger] sums@[j] < MODULUS,
                forall|j: int| 0 <= j < i ==> (#[trigger] power_sums@[j])@ == sums@[j] as int,
        {
            if sums[i] >= MODULUS {
                assert(!(sums@[i as int] < MODULUS));
                return Err(SnapshotError::NotReduced);
            }
            power_sums.push(ModularInteger::new(sums[i]));
        }
        let q = QuackSnapshot { power_sums, count };
        proof {
            assert(q@.power_sums =~= word_values(sums@));
        }
        Ok(q)
    }

    /// The power sums as plain numbers, each below the modulus.
    pub fn values(&self) -> (v: Vec<u16>)
        ensures
            v@ == words(self@.power_sums),
            all_reduced(v@),
    {
        let mut v: Vec<u16> = Vec::with_capacity(self.power_sums.len());
        for i in 0..self.power_sums.len()
            invariant
                v@.len() == i,
                forall|j: int| 0 <= j < i ==> #[trigger] v@[j] as int == self.power_sums@[j]@,
                forall|j: int| 0 <= j < i ==> #[trigger] v@[j] < MODULUS,
        {
            v.push(self.power_sums[i].value());
        }
        proof {
            assert(v@ =~= words(self@.power_sums));
        }
        v
    }

    /// The `i`-th power sum, counting from zero.
    pub fn power_sum(&self, i: usize) -> (s: ModularInteger)
        requires
            i < self@.threshold(),
        ensures
            s@ == self@.power_sums[i as int],
    {
        self.power_sums[i]
    }
}

} // verus!
