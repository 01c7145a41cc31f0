//! Decoding a difference of snapshots into the identifiers that are missing.
//!
//! The power sums of the missing identifiers give, by Newton's identities,
//! the elementary symmetric polynomials `e_1, ..., e_k` of those identifiers.
//! The monic polynomial `x^k - e_1 x^(k-1) + e_2 x^(k-2) - ...` then has the
//! missing identifiers as its roots. A root counts only where the log of
//! what was seen locally holds an identifier with that residue.

use core::ops::Neg;
use vstd::prelude::*;
use vstd::arithmetic::div_mod::{
    lemma_add_mod_noop,
    lemma_mul_mod_noop_general,
    lemma_small_mod,
    lemma_sub_mod_noop,
};
use crate::arithmetic::evaluator::{field_roots, is_root, MonicPolynomialEvaluator};
use crate::arithmetic::field::{inverse, p, MODULUS};
use crate::arithmetic::modint::{residues, ModularInteger};
use crate::power_sum::QuackSnapshot;
use crate::sketch::Sketch;
use crate::{Identifier, IdentifierLog};

verus! {

/// Why a difference of snapshots could not be decoded.
#[derive(Clone, Copy, Debug, PartialEq, Eq, Structural)]
pub enum DecodeError {
    /// The difference claims more missing identifiers than the threshold.
    DegreeExceedsThreshold,
    /// The polynomial does not have as many distinct roots in the field as
    /// the difference claims identifiers, or root finding failed, or the
    /// difference claims as many identifiers as the field has elements, for
    /// which Newton's identities cannot be solved.
    FactoringFailed,
    /// Some root of the polynomial matches nothing in the log, so fewer
    /// roots stand for identifiers than the difference claims: the two
    /// snapshots were not of a multiset and a part of it.
    CountMismatch,
}

/// The outcome of decoding.
#[derive(Debug, PartialEq, Eq)]
pub enum DecodedQuack {
    /// The identifiers of the log that are missing on the other side, in the
    /// order of the log.
    Missing(Vec<Identifier>),
    /// Nothing could be said, for the reason given.
    Failed(DecodeError),
}

/// The outcome of decoding, as a mathematical value.
pub enum Decoded {
    Missing(Seq<u16>),
    Failed(DecodeError),
}

impl View for DecodedQuack {
    type V = Decoded;

    open spec fn view(&self) -> Decoded {
        match self {
            DecodedQuack::Missing(ids) => Decoded::Missing(ids@),
            DecodedQuack::Failed(e) => Decoded::Failed(*e),
        }
    }
}

/// `+1` for an even index and `-1` for an odd one.
pub open spec fn sign(i: int) -> int {
    if i % 2 == 0 {
        1
    } else {
        -1
    }
}

/// The right-hand side of Newton's identity for `e_j`, cut after `n` terms:
/// the sum over `i` from 1 to `n` of `(-1)^(i-1) * e[j-i] * sums[i-1]`.
pub open spec fn newton_sum(e: Seq<int>, sums: Seq<int>, j: int, n: int) -> int
    decreases n,
{
    if n <= 0 {
        0
    } else {
        newton_sum(e, sums, j, n - 1) + sign(n - 1) * (e[j - n] * sums[n - 1])
    }
}

/// The elementary symmetric polynomials `e_0, ..., e_k`, as residues, of the
/// identifiers whose power sums are `sums`: `e_0 = 1` and
/// `j * e_j = sum of (-1)^(i-1) * e_(j-i) * p_i` for `i` from 1 to `j`.
pub open spec fn elementary(sums: Seq<int>, k: nat) -> Seq<int>
    decreases k,
{
    if k == 0 {
        seq![1int]
    } else {
        let e = elementary(sums, (k - 1) as nat);
        e.push((newton_sum(e, sums, k as int, k as int) * inverse(k as int)) % p())
    }
}

/// The coefficients below the leading one, highest power first, of the monic
/// polynomial of degree `k` whose roots are the identifiers with power sums
/// `sums`: the coefficient of `x^(k-j)` is `(-1)^j * e_j`.
pub open spec fn coefficients(sums: Seq<int>, k: nat) -> Seq<int> {
    Seq::new(k, |i: int| (sign(i + 1) * elementary(sums, k)[i + 1]) % p())
}

/// Some identifier in `ids` has the residue of `x`.
pub open spec fn has_residue(ids: Seq<u16>, x: u16) -> bool {
    exists|i: int| 0 <= i < ids.len() && #[trigger] ids[i] as int % p() == x as int % p()
}

/// What decoding gives once the roots are known: `roots` is what root
/// finding returned for the polynomial with coefficients `c`, and `None` if
/// it failed.
pub open spec fn validate(c: Seq<int>, log: Seq<u16>, roots: Option<Seq<u16>>) -> Decoded {
    match roots {
        None => Decoded::Failed(DecodeError::FactoringFailed),
        Some(r) => if r.len() != c.len() || exists|i: int|
            0 <= i < r.len() && !is_root(c, #[trigger] r[i] as int) {
            Decoded::Failed(DecodeError::FactoringFailed)
        } else if exists|i: int| 0 <= i < r.len() && !has_residue(log, #[trigger] r[i]) {
            Decoded::Failed(DecodeError::CountMismatch)
        } else {
            Decoded::Missing(log.filter(|id: u16| has_residue(r, id)))
        },
    }
}

/// The roots that root finding returned, and `None` where it failed.
pub open spec fn found_roots(roots: Result<Vec<u16>, String>) -> Option<Seq<u16>> {
    match roots {
        Ok(v) => Some(v@),
        Err(_) => None,
    }
}

/// What decoding the difference `q` against `log` gives.
pub open spec fn decode(q: Sketch, log: Seq<u16>) -> Decoded {
    if q.count > q.threshold() {
        Decoded::Failed(DecodeError::DegreeExceedsThreshold)
    } else if q.count == 0 {
        Decoded::Missing(Seq::empty())
    } else if q.count >= p() {
        Decoded::Failed(DecodeError::FactoringFailed)
    } else {
        let c = coefficients(q.power_sums, q.count as nat);
        validate(
            c,
            log,
            if field_roots(c).len() == c.len() {
                Some(field_roots(c))
            } else {
                None
            },
        )
    }
}

/// Whether some identifier in `ids` has the residue of `x`.
fn contains_residue(ids: &Vec<u16>, x: u16) -> (found: bool)
    ensures
        found == has_residue(ids@, x),
{
    let target = ModularInteger::new(x);
    for i in 0..ids.len()
        invariant
            target@ == x as int % p(),
            forall|j: int| 0 <= j < i ==> #[trigger] ids@[j] as int % p() != x as int % p(),
    {
        if ModularInteger::new(ids[i]) == target {
            return true;
        }
    }
    false
}

impl QuackSnapshot {
    /// The coefficients of the polynomial whose roots are the identifiers
    /// that this difference of snapshots holds, for a difference that claims
    /// no more identifiers than its threshold and fewer than the modulus.
    pub fn to_coefficients(&self) -> (c: Vec<ModularInteger>)
        requires
            self@.count <= self@.threshold(),
            self@.count < p(),
        ensures
            residues(c@) == coefficients(self@.power_sums, self@.count as nat),
    {
        let k = self.count() as usize;
        let ghost sums = self@.power_sums;
        let mut e: Vec<ModularInteger> = Vec::with_capacity(k + 1);
        e.push(ModularInteger::new(1));
        proof {
            assert(residues(e@) =~= elementary(sums, 0));
        }
        let mut j: usize = 1;
        while j <= k
            invariant
                1 <= j <= k + 1,
                k == self@.count,
                k <= self@.threshold(),
                k < p(),
                sums == self@.power_sums,
                residues(e@) == elementary(sums, (j - 1) as nat),
                e@.len() == j,
            decreases k + 1 - j,
        {
            let ghost ev = residues(e@);
            let mut sum = ModularInteger::new(0);
            let mut i: usize = 1;
            while i <= j
                invariant
                    1 <= i <= j + 1,
                    j <= k,
                    k < p(),
                    k <= self@.threshold(),
                    sums == self@.power_sums,
                    ev == residues(e@),
                    e@.len() == j,
                    sum@ == newton_sum(ev, sums, j as int, i - 1) % p(),
                decreases j + 1 - i,
            {
                let term = e[j - i] * self.power_sum(i - 1);
                proof {
                    let prev = newton_sum(ev, sums, j as int, i - 1);
                    let t = ev[j - i] * sums[i - 1];
                    assert(ev[j - i] == e@[j - i]@);
                    if i % 2 == 1 {
                        assert(sign(i - 1) * t == t);
                        lemma_add_mod_noop(prev, t, p());
                    } else {
                        assert(sign(i - 1) * t == -t);
                        lemma_sub_mod_noop(prev, t, p());
                    }
                    ModularInteger::lemma_range(sum);
                    lemma_small_mod(sum@ as nat, p() as nat);
                }
                if i % 2 == 1 {
                    sum = sum + term;
                } else {
                    sum = sum - term;
                }
                i = i + 1;
            }
            let divisor = ModularInteger::new(j as u16);
            proof {
                lemma_small_mod(j as nat, p() as nat);
            }
            let inverse_of_j = divisor.inv();
            let next = sum * inverse_of_j;
            proof {
                let full = newton_sum(ev, sums, j as int, j as int);
                lemma_mul_mod_noop_general(full, inverse(j as int), p());
                lemma_small_mod(inverse(j as int) as nat, p() as nat);
                assert(residues(e@.push(next)) =~= ev.push(next@));
            }
            e.push(next);
            j = j + 1;
        }
        let mut c: Vec<ModularInteger> = Vec::with_capacity(k);
        for m in 0..k
            invariant
                e@.len() == k + 1,
                residues(e@) == elementary(sums, k as nat),
                c@.len() == m,
                forall|n: int|
                    0 <= n < m ==> (#[trigger] c@[n])@ == (sign(n + 1) * elementary(
                        sums,
                        k as nat,
                    )[n + 1]) % p(),
        {
            let value = e[m + 1];
            proof {
                assert(value@ == residues(e@)[m + 1]);
                ModularInteger::lemma_range(value);
                lemma_small_mod(value@ as nat, p() as nat);
            }
            if m % 2 == 0 {
                c.push(value.neg());
            } else {
                c.push(value);
            }
        }
        proof {
            assert(residues(c@) =~= coefficients(sums, k as nat));
        }
        c
    }
}

impl DecodedQuack {
    /// Names the identifiers of `log` that the difference `quack` holds.
    ///
    /// Fails where the difference claims more identifiers than its threshold,
    /// where its polynomial does not have as many distinct roots as it claims
    /// identifiers, and where a root matches nothing in the log. A difference
    /// that claims no identifier decodes to an empty list.
    pub fn decode(quack: QuackSnapshot, log: IdentifierLog) -> (r: DecodedQuack)
        ensures
            r@ == decode(quack@, log@),
            quack@.count == 0 ==> r@ == Decoded::Missing(Seq::empty()),
            quack@.count > quack@.threshold() ==> r@ == Decoded::Failed(
                DecodeError::DegreeExceedsThreshold,
            ),
    {
        let k = quack.count() as usize;
        if k > quack.threshold() {
            return DecodedQuack::Failed(DecodeError::DegreeExceedsThreshold);
        }
        if k == 0 {
            return DecodedQuack::Missing(Vec::new());
        }
        if k >= MODULUS as usize {
            return DecodedQuack::Failed(DecodeError::FactoringFailed);
        }
        let coeffs = quack.to_coefficients();
        let roots = MonicPolynomialEvaluator::factor(&coeffs);
        DecodedQuack::decode_with_roots(&coeffs, &log, roots)
    }

    /// Decodes against `log` once the roots of the polynomial with
    /// coefficients `coeffs` are known, whoever found them.
    ///
    /// `roots` is taken on trust no further than this: a failure to factor is
    /// a failure to decode, and so is a list of another length than the
    /// degree or one that holds a number which is no root. A root that
    /// matches nothing in the log is a mismatch. Otherwise the result is the
    /// identifiers of the log, in order, whose residue is one of the roots.
    pub fn decode_with_roots(
        coeffs: &Vec<ModularInteger>,
        log: &IdentifierLog,
        roots: Result<Vec<u16>, String>,
    ) -> (r: DecodedQuack)
        ensures
            r@ == validate(residues(coeffs@), log@, found_roots(roots)),
    {
        let ghost c = residues(coeffs@);
        let found = match roots {
            Ok(v) => v,
            Err(_) => {
                return DecodedQuack::Failed(DecodeError::FactoringFailed);
            },
        };
        if found.len() != coeffs.len() {
            return DecodedQuack::Failed(DecodeError::FactoringFailed);
        }
        for i in 0..found.len()
            invariant
                found@.len() == coeffs@.len(),
                c == residues(coeffs@),
                found_roots(roots) == Some(found@),
                forall|j: int| 0 <= j < i ==> is_root(c, #[trigger] found@[j] as int),
        {
            if !MonicPolynomialEvaluator::eval(coeffs, found[i]).is_zero() {
                assert(!is_root(c, found@[i as int] as int));
                return DecodedQuack::Failed(DecodeError::FactoringFailed);
            }
        }
        for i in 0..found.len()
            invariant
                c == residues(coeffs@),
                found@.len() == c.len(),
                found_roots(roots) == Some(found@),
                forall|j: int| 0 <= j < found@.len() ==> is_root(c, #[trigger] found@[j] as int),
                forall|j: int| 0 <= j < i ==> has_residue(log@, #[trigger] found@[j]),
        {
            if !contains_residue(log, found[i]) {
                assert(!has_residue(log@, found@[i as int]));
                return DecodedQuack::Failed(DecodeError::CountMismatch);
            }
        }
        let ghost keep = |id: u16| has_residue(found@, id);
        let mut missing: Vec<Identifier> = Vec::new();
        proof {
            assert(log@.take(0) =~= Seq::<u16>::empty());
            log@.take(0).lemma_filter_len(keep);
        }
        for i in 0..log.len()
            invariant
                c == residues(coeffs@),
                found@.len() == c.len(),
                found_roots(roots) == Some(found@),
                forall|j: int| 0 <= j < found@.len() ==> is_root(c, #[trigger] found@[j] as int),
                forall|j: int| 0 <= j < found@.len() ==> has_residue(log@, #[trigger] found@[j]),
                keep == |id: u16| has_residue(found@, id),
                missing@ == log@.take(i as int).filter(keep),
        {
            proof {
                assert(log@.take(i + 1) =~= log@.take(i as int).push(log@[i as int]));
                log@.take(i as int).lemma_filter_push(log@[i as int], keep);
            }
            if contains_residue(&found, log[i]) {
                missing.push(log[i]);
            }
        }
        proof {
            assert(log@.take(log@.len() as int) =~= log@);
        }
        DecodedQuack::Missing(missing)
    }
}

} // verus!
