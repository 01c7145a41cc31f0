//! Why decoding recovers what is missing: the coefficients that the decoder
//! computes from the power sums of a list of identifiers are those of the
//! polynomial whose roots, in the field, are the residues of the
//! identifiers.

use vstd::prelude::*;
use vstd::arithmetic::div_mod::{
    lemma_add_mod_noop,
    lemma_mod_twice,
    lemma_mul_mod_noop_general,
    lemma_small_mod,
};
use vstd::arithmetic::mul::{lemma_mul_is_associative, lemma_mul_is_commutative};
use vstd::seq_lib::to_multiset_contains;
use crate::arithmetic::evaluator::{
    field_roots,
    is_root,
    lemma_monic_value_congruent,
    lemma_roots_below,
    monic_value,
};
use crate::arithmetic::field::{
    congruent,
    inverse,
    lemma_inverse_exists,
    lemma_mod_sub_is_zero,
    lemma_mod_sub_is_zero_rev,
    lemma_zero_product,
    p,
};
use crate::decoder::{
    coefficients,
    decode,
    elementary,
    has_residue,
    newton_sum,
    sign,
    DecodeError,
    Decoded,
};
use crate::sketch::{law_difference, power_sum, Sketch};
use crate::symmetric::{
    alternating_sum,
    esp,
    horner,
    lemma_newton_identity,
    lemma_vieta,
    product,
};

verus! {

/// `sums` holds, up to the `k`-th, the power sums of `ids` as residues.
pub open spec fn sums_of(sums: Seq<int>, ids: Seq<u16>, k: int) -> bool {
    &&& k <= sums.len()
    &&& forall|i: int| 0 <= i < k ==> #[trigger] sums[i] == power_sum(ids, (i + 1) as nat) % p()
}

/// A signed product keeps its residue when its factors are replaced by
/// congruent ones.
proof fn lemma_signed_term(s: int, a: int, b: int, c: int, d: int)
    requires
        s == 1 || s == -1,
        a % p() == c % p(),
        b % p() == d % p(),
    ensures
        (s * (a * b)) % p() == (s * (c * d)) % p(),
{
    lemma_mul_mod_noop_general(a, b, p());
    lemma_mul_mod_noop_general(c, d, p());
    lemma_mul_mod_noop_general(s, a * b, p());
    lemma_mul_mod_noop_general(s, c * d, p());
}

/// The alternating sum over residues is congruent to the one over the
/// integers.
proof fn lemma_newton_sum_congruent(e: Seq<int>, sums: Seq<int>, ids: Seq<u16>, j: int, n: int)
    requires
        0 <= n <= j,
        j <= e.len(),
        sums_of(sums, ids, n),
        forall|m: int| 0 <= m < j ==> #[trigger] e[m] == esp(ids, m) % p(),
    ensures
        newton_sum(e, sums, j, n) % p() == alternating_sum(ids, j, n) % p(),
    decreases n,
{
    if n > 0 {
        lemma_newton_sum_congruent(e, sums, ids, j, n - 1);
        let s = sign(n - 1);
        let t = s * (e[j - n] * sums[n - 1]);
        let u = s * (esp(ids, j - n) * power_sum(ids, n as nat));
        assert(e[j - n] == esp(ids, j - n) % p());
        assert(sums[n - 1] == power_sum(ids, n as nat) % p());
        lemma_mod_twice(esp(ids, j - n), p());
        lemma_mod_twice(power_sum(ids, n as nat), p());
        lemma_signed_term(s, e[j - n], sums[n - 1], esp(ids, j - n), power_sum(ids, n as nat));
        lemma_add_mod_noop(newton_sum(e, sums, j, n - 1), t, p());
        lemma_add_mod_noop(alternating_sum(ids, j, n - 1), u, p());
    }
}

/// Newton's identities, solved for `e_1, ..., e_k` in the field, give the
/// elementary symmetric polynomials of the identifiers, as residues.
pub proof fn lemma_elementary(ids: Seq<u16>, sums: Seq<int>, k: nat)
    requires
        k < p(),
        sums_of(sums, ids, k as int),
    ensures
        elementary(sums, k).len() == k + 1,
        forall|m: int| 0 <= m <= k ==> #[trigger] elementary(sums, k)[m] == esp(ids, m) % p(),
    decreases k,
{
    if k == 0 {
        lemma_small_mod(1, p() as nat);
    } else {
        let e = elementary(sums, (k - 1) as nat);
        lemma_elementary(ids, sums, (k - 1) as nat);
        let n = newton_sum(e, sums, k as int, k as int);
        let big = esp(ids, k as int);
        let inv = inverse(k as int);
        lemma_newton_sum_congruent(e, sums, ids, k as int, k as int);
        lemma_newton_identity(ids, k as int);
        lemma_small_mod(k, p() as nat);
        lemma_inverse_exists(k as int);
        // (n * inv) % p == ((k * big) * inv) % p == (big * (k * inv)) % p == big % p
        lemma_mul_mod_noop_general(n, inv, p());
        lemma_mul_mod_noop_general(k * big, inv, p());
        assert((k * big) * inv == big * (k * inv)) by {
            lemma_mul_is_commutative(k as int, big);
            lemma_mul_is_associative(big, k as int, inv);
        }
        lemma_mul_mod_noop_general(big, k * inv, p());
        assert((big % p()) * 1 == big % p());
        lemma_mod_twice(big, p());
        let v = (n * inv) % p();
        assert(v == big % p());
        assert forall|m: int| 0 <= m <= k implies #[trigger] elementary(sums, k)[m] == esp(ids, m)
            % p() by {
            if m < k {
                assert(elementary(sums, k)[m] == e[m]);
            }
        }
    }
}

/// The coefficients that the decoder computes are, as residues, the
/// elementary symmetric polynomials with alternating signs.
pub proof fn lemma_coefficients(ids: Seq<u16>, sums: Seq<int>, k: nat)
    requires
        k < p(),
        sums_of(sums, ids, k as int),
    ensures
        coefficients(sums, k).len() == k,
        forall|i: int|
            0 <= i < k ==> #[trigger] coefficients(sums, k)[i] == (sign(i + 1) * esp(ids, i + 1))
                % p(),
{
    lemma_elementary(ids, sums, k);
    assert forall|i: int| 0 <= i < k implies #[trigger] coefficients(sums, k)[i] == (sign(i + 1)
        * esp(ids, i + 1)) % p() by {
        let s = sign(i + 1);
        let big = esp(ids, i + 1);
        assert(elementary(sums, k)[i + 1] == big % p());
        lemma_mul_mod_noop_general(s, big % p(), p());
        lemma_mul_mod_noop_general(s, big, p());
        lemma_mod_twice(big, p());
    }
}

/// The polynomial with the first `n` of those coefficients is, in the
/// field, the polynomial of degree `n` over the integers.
proof fn lemma_monic_value_is_horner(c: Seq<int>, ids: Seq<u16>, n: int, x: int)
    requires
        0 <= n <= c.len(),
        forall|i: int| 0 <= i < n ==> #[trigger] c[i] == (sign(i + 1) * esp(ids, i + 1)) % p(),
    ensures
        monic_value(c.take(n), x) % p() == horner(ids, n, x) % p(),
    decreases n,
{
    if n == 0 {
        assert(c.take(0).len() == 0);
    } else {
        lemma_monic_value_is_horner(c, ids, n - 1, x);
        assert(c.take(n).drop_last() =~= c.take(n - 1));
        assert(c.take(n).last() == c[n - 1]);
        let m = monic_value(c.take(n - 1), x);
        let h = horner(ids, n - 1, x);
        let t = sign(n) * esp(ids, n);
        lemma_mul_mod_noop_general(m, x, p());
        lemma_mul_mod_noop_general(h, x, p());
        lemma_add_mod_noop(m * x, c[n - 1], p());
        lemma_add_mod_noop(h * x, t, p());
        lemma_mod_twice(t, p());
    }
}

/// Some identifier in `ids` is congruent to `x`.
pub open spec fn among(ids: Seq<u16>, x: int) -> bool {
    exists|m: int| 0 <= m < ids.len() && congruent(#[trigger] ids[m] as int, x)
}

/// The product of `x - id` vanishes in the field exactly where `x` is
/// congruent to one of the identifiers.
proof fn lemma_product_vanishes(ids: Seq<u16>, x: int)
    ensures
        product(ids, x) % p() == 0 <==> among(ids, x),
    decreases ids.len(),
{
    if ids.len() == 0 {
        lemma_small_mod(1, p() as nat);
    } else {
        let rest = ids.drop_last();
        let a = ids.last() as int;
        let n = ids.len() - 1;
        lemma_product_vanishes(rest, x);
        if product(ids, x) % p() == 0 {
            lemma_zero_product(product(rest, x), x - a);
            if product(rest, x) % p() == 0 {
                let m = choose|m: int| 0 <= m < rest.len() && congruent(#[trigger] rest[m] as int, x);
                assert(ids[m] == rest[m]);
            } else {
                lemma_mod_sub_is_zero_rev(x, a);
                assert(congruent(ids[n] as int, x));
            }
        }
        if among(ids, x) {
            let m = choose|m: int| 0 <= m < ids.len() && congruent(#[trigger] ids[m] as int, x);
            lemma_mul_mod_noop_general(product(rest, x), x - a, p());
            if m == n {
                lemma_mod_sub_is_zero(x, a);
                assert((product(rest, x) % p()) * 0 == 0);
            } else {
                assert(rest[m] == ids[m]);
                assert(among(rest, x));
                assert(0 * ((x - a) % p()) == 0);
            }
            lemma_small_mod(0, p() as nat);
        }
    }
}

/// The roots, in the field, of the polynomial that the decoder builds from
/// the power sums of `ids` are the numbers congruent to one of `ids`.
pub proof fn lemma_roots_are_identifiers(ids: Seq<u16>, sums: Seq<int>, x: int)
    requires
        ids.len() < p(),
        sums_of(sums, ids, ids.len() as int),
    ensures
        is_root(coefficients(sums, ids.len()), x) <==> among(ids, x),
{
    let k = ids.len();
    let c = coefficients(sums, k);
    lemma_coefficients(ids, sums, k);
    lemma_monic_value_is_horner(c, ids, k as int, x);
    assert(c.take(k as int) =~= c);
    lemma_vieta(ids, x);
    lemma_product_vanishes(ids, x);
}

/// No two of the identifiers are congruent.
pub open spec fn distinct_residues(ids: Seq<u16>) -> bool {
    forall|i: int, j: int|
        0 <= i < j < ids.len() ==> !congruent(#[trigger] ids[i] as int, #[trigger] ids[j] as int)
}

/// A polynomial whose roots are the residues of `k` identifiers, no two of
/// them congruent, has exactly `k` roots in the field.
proof fn lemma_count_roots(ids: Seq<u16>, c: Seq<int>)
    requires
        distinct_residues(ids),
        forall|x: int| is_root(c, x) <==> among(ids, x),
    ensures
        field_roots(c).len() == ids.len(),
{
    let roots = field_roots(c);
    let reduced = Seq::new(ids.len(), |i: int| (ids[i] as int % p()) as u16);
    lemma_roots_below(c, p());
    assert(reduced.no_duplicates()) by {
        assert forall|i: int, j: int|
            0 <= i < reduced.len() && 0 <= j < reduced.len() && i != j implies reduced[i]
            != reduced[j] by {
            if i < j {
                assert(!congruent(ids[i] as int, ids[j] as int));
            } else {
                assert(!congruent(ids[j] as int, ids[i] as int));
            }
        }
    }
    assert forall|x: u16| roots.contains(x) <==> reduced.contains(x) by {
        if roots.contains(x) {
            let i = choose|i: int| 0 <= i < roots.len() && roots[i] == x;
            assert(is_root(c, roots[i] as int));
            assert(among(ids, x as int));
            let m = choose|m: int| 0 <= m < ids.len() && congruent(#[trigger] ids[m] as int, x as int);
            lemma_small_mod(x as nat, p() as nat);
            assert(reduced[m] == x);
        }
        if reduced.contains(x) {
            let m = choose|m: int| 0 <= m < reduced.len() && reduced[m] == x;
            lemma_small_mod(x as nat, p() as nat);
            assert(congruent(ids[m] as int, x as int));
            assert(among(ids, x as int));
            assert(is_root(c, x as int));
        }
    }
    assert(roots.to_set() =~= reduced.to_set());
    roots.unique_seq_to_set();
    reduced.unique_seq_to_set();
}

/// Whatever is in `part` is in `whole`, where `whole` holds `part` and more.
proof fn lemma_part_is_in_whole(whole: Seq<u16>, rest: Seq<u16>, part: Seq<u16>, m: int)
    requires
        whole.to_multiset() == rest.to_multiset().add(part.to_multiset()),
        0 <= m < part.len(),
    ensures
        whole.contains(part[m]),
{
    to_multiset_contains(part, part[m]);
    to_multiset_contains(whole, part[m]);
    assert(part.contains(part[m]));
}

/// Decoding the difference of the sketches of `all` and of `received`
/// against the log `all` names what is missing, up to congruence.
///
/// Where the identifiers `all` are those of `received` together with those
/// of `missing`, in any order, where `missing` holds no more identifiers
/// than the threshold and no two that are congruent, decoding succeeds, and
/// gives the identifiers of `all`, in order, that are congruent to a
/// missing one.
pub proof fn law_decode_finds_missing(
    all: Seq<u16>,
    received: Seq<u16>,
    missing: Seq<u16>,
    threshold: nat,
)
    requires
        all.to_multiset() == received.to_multiset().add(missing.to_multiset()),
        missing.len() <= threshold,
        missing.len() < p(),
        distinct_residues(missing),
    ensures
        decode(Sketch::of(all, threshold).minus(Sketch::of(received, threshold)), all)
            == Decoded::Missing(all.filter(|id: u16| among(missing, id as int))),
{
    let q = Sketch::of(all, threshold).minus(Sketch::of(received, threshold));
    let k = missing.len();
    let wanted = |id: u16| among(missing, id as int);
    law_difference(all, received, missing, threshold);
    assert(q == Sketch::of(missing, threshold));
    if k == 0 {
        let kept = all.filter(wanted);
        if kept.len() > 0 {
            all.lemma_filter_pred(wanted, 0);
            assert(among(missing, kept[0] as int));
        }
        assert(kept =~= Seq::<u16>::empty());
    } else {
        let sums = q.power_sums;
        let c = coefficients(sums, k);
        assert(sums_of(sums, missing, k as int));
        lemma_coefficients(missing, sums, k);
        assert forall|x: int| is_root(c, x) <==> among(missing, x) by {
            lemma_roots_are_identifiers(missing, sums, x);
        }
        lemma_count_roots(missing, c);
        let roots = field_roots(c);
        lemma_roots_below(c, p());
        assert forall|i: int| 0 <= i < roots.len() implies has_residue(all, #[trigger] roots[i]) by {
            assert(is_root(c, roots[i] as int));
            assert(among(missing, roots[i] as int));
            let m = choose|m: int|
                0 <= m < missing.len() && congruent(#[trigger] missing[m] as int, roots[i] as int);
            lemma_part_is_in_whole(all, received, missing, m);
            let n = choose|n: int| 0 <= n < all.len() && all[n] == missing[m];
            assert(all[n] as int % p() == roots[i] as int % p());
        }
        let kept = |id: u16| has_residue(roots, id);
        assert forall|id: u16| #[trigger] kept(id) == wanted(id) by {
            let r = (id as int % p()) as u16;
            lemma_mod_twice(id as int, p());
            lemma_small_mod(r as nat, p() as nat);
            lemma_monic_value_congruent(c, id as int, r as int);
            if has_residue(roots, id) {
                let i = choose|i: int|
                    0 <= i < roots.len() && #[trigger] roots[i] as int % p() == id as int % p();
                lemma_small_mod(roots[i] as nat, p() as nat);
                assert(is_root(c, roots[i] as int));
                assert(is_root(c, id as int));
            }
            if among(missing, id as int) {
                assert(is_root(c, r as int));
                assert(roots.contains(r));
                let i = choose|i: int| 0 <= i < roots.len() && roots[i] == r;
                assert(roots[i] as int % p() == id as int % p());
            }
        }
        assert(kept =~= wanted);
    }
}

/// Decoding names exactly the missing identifiers, as a set.
///
/// This holds where, beyond what `law_decode_finds_missing` asks, every
/// identifier of `all` that is congruent to a missing one is itself
/// missing: identifiers that differ by the modulus look the same to a
/// sketch.
pub proof fn law_decode_recovers_missing(
    all: Seq<u16>,
    received: Seq<u16>,
    missing: Seq<u16>,
    threshold: nat,
)
    requires
        all.to_multiset() == received.to_multiset().add(missing.to_multiset()),
        missing.len() <= threshold,
        missing.len() < p(),
        distinct_residues(missing),
        forall|i: int|
            0 <= i < all.len() && among(missing, #[trigger] all[i] as int) ==> missing.contains(
                all[i],
            ),
    ensures
        decode(Sketch::of(all, threshold).minus(Sketch::of(received, threshold)), all) matches Decoded::Missing(
            found,
        ) && found.to_set() == missing.to_set(),
{
    let wanted = |id: u16| among(missing, id as int);
    let found = all.filter(wanted);
    law_decode_finds_missing(all, received, missing, threshold);
    assert forall|id: u16| found.contains(id) <==> missing.contains(id) by {
        if found.contains(id) {
            all.lemma_filter_contains_rev(wanted, id);
            let i = choose|i: int| 0 <= i < found.len() && found[i] == id;
            all.lemma_filter_pred(wanted, i);
            let n = choose|n: int| 0 <= n < all.len() && all[n] == id;
            assert(among(missing, all[n] as int));
        }
        if missing.contains(id) {
            let m = choose|m: int| 0 <= m < missing.len() && missing[m] == id;
            lemma_part_is_in_whole(all, received, missing, m);
            let n = choose|n: int| 0 <= n < all.len() && all[n] == id;
            assert(congruent(missing[m] as int, id as int));
            assert(wanted(all[n]));
            all.lemma_filter_contains(wanted, n);
        }
    }
    assert(found.to_set() =~= missing.to_set());
}

/// Where more identifiers are missing than the threshold allows, and fewer
/// than the counter can count, decoding fails and says so: it never names
/// a part of what is missing.
pub proof fn law_decode_fails_beyond_threshold(
    all: Seq<u16>,
    received: Seq<u16>,
    missing: Seq<u16>,
    threshold: nat,
)
    requires
        all.to_multiset() == received.to_multiset().add(missing.to_multiset()),
        threshold < missing.len() < 0x1_0000,
    ensures
        decode(Sketch::of(all, threshold).minus(Sketch::of(received, threshold)), all)
            == Decoded::Failed(DecodeError::DegreeExceedsThreshold),
{
    law_difference(all, received, missing, threshold);
}

/// A difference that claims nothing missing decodes to the empty list,
/// whatever its power sums and whatever the log.
pub proof fn law_decode_of_zero_count(q: Sketch, log: Seq<u16>)
    requires
        q.count == 0,
    ensures
        decode(q, log) == Decoded::Missing(Seq::empty()),
{
}

} // verus!
