//! Counting lemmas: sums of counts, histogram bounds, and cardinality
//! facts used to relate count tables to their mathematical models.
use vstd::prelude::*;

use crate::utils::{lemma_occurrence_count_empty, occurrence_count};
use vstd::seq_lib::seq_to_set_is_finite;
use vstd::set::group_set_axioms;

verus! {

/// The sum of a sequence of counts.
pub open spec fn sum_vals(s: Seq<u32>) -> int
    decreases s.len(),
{
    if s.len() == 0 {
        0
    } else {
        sum_vals(s.drop_last()) + s.last()
    }
}

/// The total number of occurrences in `grams` of the keys listed in `keys`.
pub open spec fn sum_occurrences<G>(keys: Seq<G>, grams: Seq<G>) -> int
    decreases keys.len(),
{
    if keys.len() == 0 {
        0
    } else {
        sum_occurrences(keys.drop_last(), grams) + occurrence_count(grams, keys.last())
    }
}

pub proof fn lemma_sum_vals_nonneg(s: Seq<u32>)
    ensures
        sum_vals(s) >= 0,
    decreases s.len(),
{
    if s.len() > 0 {
        lemma_sum_vals_nonneg(s.drop_last());
    }
}

pub proof fn lemma_sum_vals_take_le(s: Seq<u32>, i: int)
    requires
        0 <= i <= s.len(),
    ensures
        sum_vals(s.take(i)) <= sum_vals(s),
    decreases s.len() - i,
{
    if i == s.len() {
        assert(s.take(i) =~= s);
    } else {
        assert(s.take(i + 1).drop_last() =~= s.take(i));
        assert(s.take(i + 1).last() == s[i]);
        lemma_sum_vals_take_le(s, i + 1);
    }
}

pub proof fn lemma_occurrence_count_drop_last<G>(s: Seq<G>, g: G)
    requires
        s.len() > 0,
    ensures
        occurrence_count(s, g) == occurrence_count(s.drop_last(), g) + (if s.last() == g {
            1nat
        } else {
            0nat
        }),
{
    reveal(Seq::filter);
}

/// In a duplicate-free sequence every element occurs exactly once.
pub proof fn lemma_occurrence_nodup<G>(s: Seq<G>, g: G)
    requires
        s.no_duplicates(),
    ensures
        occurrence_count(s, g) == if s.contains(g) {
            1nat
        } else {
            0nat
        },
    decreases s.len(),
{
    if s.len() == 0 {
        lemma_occurrence_count_empty(g);
        assert(!s.contains(g));
    } else {
        lemma_occurrence_count_drop_last(s, g);
        lemma_occurrence_nodup(s.drop_last(), g);
        if s.last() == g {
            assert(!s.drop_last().contains(g)) by {
                if s.drop_last().contains(g) {
                    let j = choose|j: int|
                        0 <= j < s.drop_last().len() && #[trigger] s.drop_last()[j] == g;
                    assert(s[j] == s[s.len() - 1]);
                }
            }
            assert(s.contains(g));
        } else {
            assert(s.contains(g) <==> s.drop_last().contains(g)) by {
                if s.contains(g) {
                    let j = choose|j: int| 0 <= j < s.len() && #[trigger] s[j] == g;
                    assert(s.drop_last()[j] == g);
                }
                if s.drop_last().contains(g) {
                    let j = choose|j: int|
                        0 <= j < s.drop_last().len() && #[trigger] s.drop_last()[j] == g;
                    assert(s[j] == g);
                }
            }
        }
    }
}

pub proof fn lemma_sum_occurrences_empty<G>(keys: Seq<G>)
    ensures
        sum_occurrences(keys, Seq::<G>::empty()) == 0,
    decreases keys.len(),
{
    if keys.len() > 0 {
        lemma_occurrence_count_empty(keys.last());
        lemma_sum_occurrences_empty(keys.drop_last());
    }
}

pub proof fn lemma_sum_occurrences_push<G>(keys: Seq<G>, grams: Seq<G>, x: G)
    ensures
        sum_occurrences(keys, grams.push(x)) == sum_occurrences(keys, grams) + occurrence_count(
            keys,
            x,
        ),
    decreases keys.len(),
{
    if keys.len() == 0 {
        lemma_occurrence_count_empty(x);
    } else {
        lemma_sum_occurrences_push(keys.drop_last(), grams, x);
        crate::utils::lemma_occurrence_count_push(grams, x, keys.last());
        lemma_occurrence_count_drop_last(keys, x);
    }
}

/// Double counting: summing, over a duplicate-free cover of the grams, how
/// often each key occurs yields the total number of grams.
pub proof fn lemma_occurrences_mass<G>(keys: Seq<G>, grams: Seq<G>)
    requires
        keys.no_duplicates(),
        forall|g: G| grams.contains(g) ==> keys.contains(g),
    ensures
        sum_occurrences(keys, grams) == grams.len(),
    decreases grams.len(),
{
    if grams.len() == 0 {
        assert(grams =~= Seq::<G>::empty());
        lemma_sum_occurrences_empty(keys);
    } else {
        let dl = grams.drop_last();
        let x = grams.last();
        assert(grams =~= dl.push(x));
        assert forall|g: G| dl.contains(g) implies keys.contains(g) by {
            let j = choose|j: int| 0 <= j < dl.len() && #[trigger] dl[j] == g;
            assert(grams[j] == g);
        }
        lemma_occurrences_mass(keys, dl);
        lemma_sum_occurrences_push(keys, dl, x);
        assert(grams.contains(x)) by {
            assert(grams[grams.len() - 1] == x);
        }
        lemma_occurrence_nodup(keys, x);
    }
}

/// A sequence of counts that reads off occurrence counts pointwise sums to
/// the same value as the occurrence sum itself.
pub proof fn lemma_sum_vals_eq_sum_occurrences<G>(keys: Seq<G>, vals: Seq<u32>, grams: Seq<G>)
    requires
        keys.len() == vals.len(),
        forall|i: int|
            0 <= i < keys.len() ==> #[trigger] vals[i] == occurrence_count(grams, keys[i]),
    ensures
        sum_vals(vals) == sum_occurrences(keys, grams),
    decreases keys.len(),
{
    if keys.len() > 0 {
        assert(vals[keys.len() - 1] == occurrence_count(grams, keys.last()));
        lemma_sum_vals_eq_sum_occurrences(keys.drop_last(), vals.drop_last(), grams);
    }
}

/// Histogram bound: the grams counted `v` times contribute `v` each, so
/// `v * N(v)` never exceeds the total count mass.
pub proof fn lemma_histogram(vals: Seq<u32>, v: u32)
    ensures
        (v as int) * (occurrence_count(vals, v) as int) <= sum_vals(vals),
    decreases vals.len(),
{
    if vals.len() == 0 {
        lemma_occurrence_count_empty(v);
        assert((v as int) * 0 == 0) by (nonlinear_arith);
        lemma_sum_vals_nonneg(vals);
    } else {
        let dl = vals.drop_last();
        lemma_histogram(dl, v);
        lemma_occurrence_count_drop_last(vals, v);
        let occ_dl = occurrence_count(dl, v) as int;
        if vals.last() == v {
            assert((v as int) * (occ_dl + 1) == (v as int) * occ_dl + (v as int))
                by (nonlinear_arith);
        }
    }
}

/// The histogram read off a table agrees with the model: the number of
/// count values equal to `v` equals the number of distinct keys whose gram
/// occurs `v` times.
pub proof fn lemma_occ_vals_eq_card<G>(keys: Seq<G>, vals: Seq<u32>, grams: Seq<G>, v: u32)
    requires
        keys.no_duplicates(),
        vals.len() == keys.len(),
        forall|i: int|
            0 <= i < keys.len() ==> (#[trigger] vals[i]) as nat == occurrence_count(
                grams,
                keys[i],
            ),
        grams.len() <= u32::MAX,
    ensures
        occurrence_count(vals, v) == keys.to_set().filter(
            |g: G| occurrence_count(grams, g) == v as nat,
        ).len(),
    decreases keys.len(),
{
    broadcast use group_set_axioms, seq_to_set_is_finite;

    let p = |g: G| occurrence_count(grams, g) == v as nat;
    if keys.len() == 0 {
        lemma_occurrence_count_empty(v);
        assert(vals =~= Seq::<u32>::empty());
        assert(keys.to_set() =~= Set::<G>::empty());
        assert(keys.to_set().filter(p) =~= Set::<G>::empty());
    } else {
        let dk = keys.drop_last();
        let dv = vals.drop_last();
        let x = keys.last();
        assert forall|i: int| 0 <= i < dk.len() implies (#[trigger] dv[i]) as nat
            == occurrence_count(grams, dk[i]) by {
            assert(dv[i] == vals[i]);
            assert(dk[i] == keys[i]);
        }
        lemma_occ_vals_eq_card(dk, dv, grams, v);
        lemma_occurrence_count_drop_last(vals, v);
        assert(keys.to_set() =~= dk.to_set().insert(x)) by {
            assert forall|a: G| keys.contains(a) implies dk.contains(a) || a == x by {
                let j = choose|j: int| 0 <= j < keys.len() && #[trigger] keys[j] == a;
                if j < keys.len() - 1 {
                    assert(dk[j] == a);
                }
            }
            assert forall|a: G| dk.contains(a) implies keys.contains(a) by {
                let j = choose|j: int| 0 <= j < dk.len() && #[trigger] dk[j] == a;
                assert(keys[j] == a);
            }
            assert(keys.contains(x)) by {
                assert(keys[keys.len() - 1] == x);
            }
        }
        assert(!dk.to_set().contains(x)) by {
            if dk.contains(x) {
                let j = choose|j: int| 0 <= j < dk.len() && #[trigger] dk[j] == x;
                assert(keys[j] == keys[keys.len() - 1]);
            }
        }
        assert((vals.last() as nat) == occurrence_count(grams, x)) by {
            assert(vals[keys.len() - 1] as nat == occurrence_count(grams, keys[keys.len() - 1]));
        }
        if p(x) {
            assert(vals.last() == v);
            assert(keys.to_set().filter(p) =~= dk.to_set().filter(p).insert(x));
            assert(!dk.to_set().filter(p).contains(x));
        } else {
            assert(vals.last() != v);
            assert(keys.to_set().filter(p) =~= dk.to_set().filter(p));
        }
    }
}

/// An element is in a flattened sequence exactly when some inner sequence
/// holds it.
pub proof fn lemma_flatten_contains<A>(s: Seq<Seq<A>>, x: A)
    ensures
        s.flatten().contains(x) <==> exists|i: int|
            0 <= i < s.len() && (#[trigger] s[i]).contains(x),
    decreases s.len(),
{
    if s.len() == 0 {
    } else {
        assert(s.flatten() == s.first() + s.drop_first().flatten());
        lemma_flatten_contains(s.drop_first(), x);
        if s.flatten().contains(x) {
            let j = choose|j: int| 0 <= j < s.flatten().len() && #[trigger] s.flatten()[j] == x;
            if j < s.first().len() {
                assert(s[0].contains(x)) by {
                    assert(s[0][j] == x);
                }
            } else {
                assert(s.drop_first().flatten()[j - s.first().len()] == x);
                let i = choose|i: int|
                    0 <= i < s.drop_first().len() && (#[trigger] s.drop_first()[i]).contains(x);
                assert(s[i + 1].contains(x));
            }
        }
        if exists|i: int| 0 <= i < s.len() && (#[trigger] s[i]).contains(x) {
            let i = choose|i: int| 0 <= i < s.len() && (#[trigger] s[i]).contains(x);
            let j = choose|j: int| 0 <= j < s[i].len() && #[trigger] s[i][j] == x;
            if i == 0 {
                assert(s.flatten()[j] == x);
            } else {
                assert(s.drop_first()[i - 1].contains(x));
                assert(s.drop_first().flatten().contains(x));
                let j2 = choose|j2: int|
                    0 <= j2 < s.drop_first().flatten().len() && #[trigger] s.drop_first().flatten()[j2]
                        == x;
                assert(s.flatten()[s.first().len() + j2] == x);
            }
        }
    }
}

/// Flattening preserves elementwise length bounds.
pub proof fn lemma_flatten_len_mono<A, B>(a: Seq<Seq<A>>, b: Seq<Seq<B>>)
    requires
        a.len() == b.len(),
        forall|i: int| 0 <= i < a.len() ==> (#[trigger] a[i]).len() <= (#[trigger] b[i]).len(),
    ensures
        a.flatten().len() <= b.flatten().len(),
    decreases a.len(),
{
    if a.len() > 0 {
        assert(a.flatten() == a.first() + a.drop_first().flatten());
        assert(b.flatten() == b.first() + b.drop_first().flatten());
        assert forall|i: int|
            0 <= i < a.drop_first().len() implies (#[trigger] a.drop_first()[i]).len() <= (
        #[trigger] b.drop_first()[i]).len() by {
            assert(a.drop_first()[i] == a[i + 1]);
            assert(b.drop_first()[i] == b[i + 1]);
        }
        lemma_flatten_len_mono(a.drop_first(), b.drop_first());
    }
}

} // verus!
