//! The mathematical model of a power-sum sketch and the laws of its algebra.

use vstd::prelude::*;
use vstd::arithmetic::div_mod::{
    lemma_add_mod_noop,
    lemma_small_mod,
    lemma_sub_mod_noop,
};
use vstd::arithmetic::power::pow;
use vstd::seq_lib::{lemma_multiset_commutative, to_multiset_len, to_multiset_remove};
use crate::arithmetic::field::p;

verus! {

/// What a sketch holds: how many identifiers are in it, modulo 2^16, and for
/// each `i` below the threshold the sum of their `(i + 1)`-th powers, as a
/// residue.
pub struct Sketch {
    pub count: int,
    pub power_sums: Seq<int>,
}

/// The sum of the `e`-th powers of `ids`, over the integers.
pub open spec fn power_sum(ids: Seq<u16>, e: nat) -> int
    decreases ids.len(),
{
    if ids.len() == 0 {
        0
    } else {
        power_sum(ids.drop_last(), e) + pow(ids.last() as int, e)
    }
}

impl Sketch {
    /// The number of power sums kept.
    pub open spec fn threshold(self) -> nat {
        self.power_sums.len()
    }

    /// The counter fits 16 bits and every power sum is a residue.
    pub open spec fn wf(self) -> bool {
        &&& 0 <= self.count < 0x1_0000
        &&& forall|i: int| 0 <= i < self.power_sums.len() ==> 0 <= #[trigger] self.power_sums[i] < p()
    }

    /// The sketch of nothing, with `d` power sums.
    pub open spec fn empty(d: nat) -> Sketch {
        Sketch { count: 0, power_sums: Seq::new(d, |i: int| 0int) }
    }

    /// The sketch of the identifiers `ids`, with `d` power sums.
    pub open spec fn of(ids: Seq<u16>, d: nat) -> Sketch {
        Sketch {
            count: ids.len() as int % 0x1_0000,
            power_sums: Seq::new(d, |i: int| power_sum(ids, (i + 1) as nat) % p()),
        }
    }

    /// The sketch with `id` added.
    pub open spec fn insert(self, id: u16) -> Sketch {
        Sketch {
            count: (self.count + 1) % 0x1_0000,
            power_sums: Seq::new(
                self.power_sums.len(),
                |i: int| (self.power_sums[i] + pow(id as int, (i + 1) as nat)) % p(),
            ),
        }
    }

    /// The sketch with `id` taken out.
    pub open spec fn remove(self, id: u16) -> Sketch {
        Sketch {
            count: (self.count - 1) % 0x1_0000,
            power_sums: Seq::new(
                self.power_sums.len(),
                |i: int| (self.power_sums[i] - pow(id as int, (i + 1) as nat)) % p(),
            ),
        }
    }

    /// The field-wise difference of two sketches.
    pub open spec fn minus(self, other: Sketch) -> Sketch {
        Sketch {
            count: (self.count - other.count) % 0x1_0000,
            power_sums: Seq::new(
                self.power_sums.len(),
                |i: int| (self.power_sums[i] - other.power_sums[i]) % p(),
            ),
        }
    }

    /// The sketch after adding each of `ids` in turn.
    pub open spec fn insert_all(self, ids: Seq<u16>) -> Sketch
        decreases ids.len(),
    {
        if ids.len() == 0 {
            self
        } else {
            self.insert_all(ids.drop_last()).insert(ids.last())
        }
    }

    /// The sketch after taking out each of `ids` in turn.
    pub open spec fn remove_all(self, ids: Seq<u16>) -> Sketch
        decreases ids.len(),
    {
        if ids.len() == 0 {
            self
        } else {
            self.remove_all(ids.drop_last()).remove(ids.last())
        }
    }
}

/// Taking one identifier out of a sequence takes its power out of the sum.
proof fn lemma_power_sum_remove(ids: Seq<u16>, i: int, e: nat)
    requires
        0 <= i < ids.len(),
    ensures
        power_sum(ids, e) == power_sum(ids.remove(i), e) + pow(ids[i] as int, e),
    decreases ids.len(),
{
    if i == ids.len() - 1 {
        assert(ids.remove(i) =~= ids.drop_last());
    } else {
        lemma_power_sum_remove(ids.drop_last(), i, e);
        assert(ids.remove(i).drop_last() =~= ids.drop_last().remove(i));
        assert(ids.remove(i).last() == ids.last());
    }
}

/// A power sum does not depend on the order of the identifiers.
pub proof fn lemma_power_sum_permutation(a: Seq<u16>, b: Seq<u16>, e: nat)
    requires
        a.to_multiset() == b.to_multiset(),
    ensures
        power_sum(a, e) == power_sum(b, e),
    decreases a.len(),
{
    to_multiset_len(a);
    to_multiset_len(b);
    if a.len() > 0 {
        let x = a.last();
        let n = a.len() - 1;
        to_multiset_remove(a, n);
        assert(a.remove(n) =~= a.drop_last());
        assert(a.to_multiset().count(x) > 0) by {
            a.to_multiset_ensures();
            assert(a.contains(x));
        }
        b.to_multiset_ensures();
        assert(b.contains(x));
        let i = choose|i: int| 0 <= i < b.len() && b[i] == x;
        to_multiset_remove(b, i);
        lemma_power_sum_permutation(a.drop_last(), b.remove(i), e);
        lemma_power_sum_remove(b, i, e);
    }
}

/// The power sum of a concatenation is the sum of the power sums.
pub proof fn lemma_power_sum_concat(a: Seq<u16>, b: Seq<u16>, e: nat)
    ensures
        power_sum(a + b, e) == power_sum(a, e) + power_sum(b, e),
    decreases b.len(),
{
    if b.len() == 0 {
        assert(a + b =~= a);
    } else {
        lemma_power_sum_concat(a, b.drop_last(), e);
        assert((a + b).drop_last() =~= a + b.drop_last());
        assert((a + b).last() == b.last());
    }
}

/// Adding identifiers one by one moves the counter by their number and each
/// power sum by the sum of their powers.
pub proof fn lemma_insert_all(s: Sketch, ids: Seq<u16>)
    requires
        s.wf(),
    ensures
        s.insert_all(ids).wf(),
        s.insert_all(ids).count == (s.count + ids.len()) % 0x1_0000,
        s.insert_all(ids).power_sums.len() == s.power_sums.len(),
        forall|i: int|
            0 <= i < s.power_sums.len() ==> #[trigger] s.insert_all(ids).power_sums[i] == (
            s.power_sums[i] + power_sum(ids, (i + 1) as nat)) % p(),
    decreases ids.len(),
{
    if ids.len() == 0 {
        assert forall|i: int| 0 <= i < s.power_sums.len() implies s.power_sums[i] == (
        s.power_sums[i] + power_sum(ids, (i + 1) as nat)) % p() by {
            lemma_small_mod(s.power_sums[i] as nat, p() as nat);
        }
    } else {
        let t = s.insert_all(ids.drop_last());
        lemma_insert_all(s, ids.drop_last());
        assert forall|i: int| 0 <= i < s.power_sums.len() implies #[trigger] s.insert_all(
            ids,
        ).power_sums[i] == (s.power_sums[i] + power_sum(ids, (i + 1) as nat)) % p() by {
            let e = (i + 1) as nat;
            lemma_add_mod_noop(
                s.power_sums[i] + power_sum(ids.drop_last(), e),
                pow(ids.last() as int, e),
                p(),
            );
            lemma_add_mod_noop(t.power_sums[i], pow(ids.last() as int, e), p());
        }
    }
}

/// Taking identifiers out one by one moves the counter back by their number
/// and each power sum back by the sum of their powers.
pub proof fn lemma_remove_all(s: Sketch, ids: Seq<u16>)
    requires
        s.wf(),
    ensures
        s.remove_all(ids).wf(),
        s.remove_all(ids).count == (s.count - ids.len()) % 0x1_0000,
        s.remove_all(ids).power_sums.len() == s.power_sums.len(),
        forall|i: int|
            0 <= i < s.power_sums.len() ==> #[trigger] s.remove_all(ids).power_sums[i] == (
            s.power_sums[i] - power_sum(ids, (i + 1) as nat)) % p(),
    decreases ids.len(),
{
    if ids.len() == 0 {
        assert forall|i: int| 0 <= i < s.power_sums.len() implies s.power_sums[i] == (
        s.power_sums[i] - power_sum(ids, (i + 1) as nat)) % p() by {
            lemma_small_mod(s.power_sums[i] as nat, p() as nat);
        }
    } else {
        let t = s.remove_all(ids.drop_last());
        lemma_remove_all(s, ids.drop_last());
        assert forall|i: int| 0 <= i < s.power_sums.len() implies #[trigger] s.remove_all(
            ids,
        ).power_sums[i] == (s.power_sums[i] - power_sum(ids, (i + 1) as nat)) % p() by {
            let e = (i + 1) as nat;
            lemma_sub_mod_noop(
                s.power_sums[i] - power_sum(ids.drop_last(), e),
                pow(ids.last() as int, e),
                p(),
            );
            lemma_sub_mod_noop(t.power_sums[i], pow(ids.last() as int, e), p());
        }
    }
}

/// Inserting identifiers into an empty sketch gives the sketch of those
/// identifiers, whatever the order.
pub proof fn law_insert_all_from_empty(ids: Seq<u16>, d: nat)
    ensures
        Sketch::empty(d).insert_all(ids) == Sketch::of(ids, d),
{
    lemma_insert_all(Sketch::empty(d), ids);
    assert(Sketch::empty(d).insert_all(ids).power_sums =~= Sketch::of(ids, d).power_sums);
}

/// After inserting any identifiers once each, the counter is their number
/// modulo 2^16.
pub proof fn law_count_is_size(ids: Seq<u16>, d: nat)
    ensures
        Sketch::empty(d).insert_all(ids).count == ids.len() % 0x1_0000,
{
    lemma_insert_all(Sketch::empty(d), ids);
}

/// Inserting identifiers and then removing the same identifiers, each as
/// often as it was inserted and in any order, gives the sketch back. From an
/// empty sketch that is a zero counter and all-zero power sums.
pub proof fn law_insert_then_remove(s: Sketch, inserted: Seq<u16>, removed: Seq<u16>)
    requires
        s.wf(),
        inserted.to_multiset() == removed.to_multiset(),
    ensures
        s.insert_all(inserted).remove_all(removed) == s,
        Sketch::empty(s.threshold()).insert_all(inserted).remove_all(removed) == Sketch::empty(
            s.threshold(),
        ),
{
    lemma_round_trip(s, inserted, removed);
    lemma_round_trip(Sketch::empty(s.threshold()), inserted, removed);
}

proof fn lemma_round_trip(s: Sketch, inserted: Seq<u16>, removed: Seq<u16>)
    requires
        s.wf(),
        inserted.to_multiset() == removed.to_multiset(),
    ensures
        s.insert_all(inserted).remove_all(removed) == s,
{
    let t = s.insert_all(inserted);
    let u = t.remove_all(removed);
    lemma_insert_all(s, inserted);
    lemma_remove_all(t, removed);
    to_multiset_len(inserted);
    to_multiset_len(removed);
    assert forall|i: int| 0 <= i < s.power_sums.len() implies u.power_sums[i]
        == s.power_sums[i] by {
        let e = (i + 1) as nat;
        lemma_power_sum_permutation(inserted, removed, e);
        lemma_sub_mod_noop(s.power_sums[i] + power_sum(inserted, e), power_sum(removed, e), p());
        lemma_sub_mod_noop(t.power_sums[i], power_sum(removed, e), p());
        lemma_small_mod(s.power_sums[i] as nat, p() as nat);
    }
    assert(u.power_sums =~= s.power_sums);
}

/// Where the identifiers of `a` are those of `b` together with `missing`,
/// the sketch of `a` minus the sketch of `b` is the sketch of `missing`.
pub proof fn law_difference(a: Seq<u16>, b: Seq<u16>, missing: Seq<u16>, d: nat)
    requires
        a.to_multiset() == b.to_multiset().add(missing.to_multiset()),
    ensures
        Sketch::of(a, d).minus(Sketch::of(b, d)) == Sketch::of(missing, d),
{
    lemma_multiset_commutative(b, missing);
    to_multiset_len(a);
    to_multiset_len(b + missing);
    let diff = Sketch::of(a, d).minus(Sketch::of(b, d));
    assert forall|i: int| 0 <= i < d implies diff.power_sums[i] == Sketch::of(
        missing,
        d,
    ).power_sums[i] by {
        let e = (i + 1) as nat;
        lemma_power_sum_permutation(a, b + missing, e);
        lemma_power_sum_concat(b, missing, e);
        lemma_sub_mod_noop(power_sum(a, e), power_sum(b, e), p());
    }
    assert(diff.power_sums =~= Sketch::of(missing, d).power_sums);
}

} // verus!
