//! Aggregation helpers: building and merging count tables from gram lists.
use vstd::prelude::*;

use crate::counting::{lemma_sum_vals_nonneg, lemma_sum_vals_take_le, sum_vals};
use crate::table::{
    lemma_count_in_absent, map_count, nested_views, view_seq, CountTable, GramKey,
};
use crate::tokenize::{spec_line_pairs, spec_split, split_line};

verus! {

/// How many times `g` occurs in `s`.
pub open spec fn occurrence_count<G>(s: Seq<G>, g: G) -> nat {
    s.filter(|x: G| x == g).len()
}

/// Two count maps merged additively: the union of the domains, counts added
/// pointwise with absent keys read as 0.
pub open spec fn spec_merged<G>(a: Map<G, int>, b: Map<G, int>) -> Map<G, int> {
    Map::new(
        |g: G| a.dom().contains(g) || b.dom().contains(g),
        |g: G| map_count(a, g) + map_count(b, g),
    )
}

pub proof fn lemma_occurrence_count_empty<G>(g: G)
    ensures
        occurrence_count(Seq::<G>::empty(), g) == 0,
{
    reveal(Seq::filter);
}

pub proof fn lemma_occurrence_count_push<G>(s: Seq<G>, x: G, g: G)
    ensures
        occurrence_count(s.push(x), g) == occurrence_count(s, g) + (if x == g {
            1nat
        } else {
            0nat
        }),
{
    reveal(Seq::filter);
    assert(s.push(x).drop_last() =~= s);
    assert(s.push(x).last() == x);
}

pub proof fn lemma_occurrence_count_le_len<G>(s: Seq<G>, g: G)
    ensures
        occurrence_count(s, g) <= s.len(),
{
    broadcast use Seq::lemma_filter_len;

}

pub proof fn lemma_occurrence_count_add<G>(a: Seq<G>, b: Seq<G>, g: G)
    ensures
        occurrence_count(a + b, g) == occurrence_count(a, g) + occurrence_count(b, g),
{
    broadcast use Seq::filter_distributes_over_add;

}

/// An element that never occurs in a sequence has occurrence count 0.
pub proof fn lemma_occurrence_count_absent<G>(s: Seq<G>, g: G)
    requires
        !s.contains(g),
    ensures
        occurrence_count(s, g) == 0,
    decreases s.len(),
{
    reveal(Seq::filter);
    if s.len() > 0 {
        assert(s.last() != g);
        assert(!s.drop_last().contains(g)) by {
            if s.drop_last().contains(g) {
                let j = choose|j: int| 0 <= j < s.drop_last().len() && #[trigger] s.drop_last()[j]
                    == g;
                assert(s[j] == g);
            }
        }
        lemma_occurrence_count_absent(s.drop_last(), g);
    }
}

/// Law: merging count maps additively is order-independent. The merged
/// table reads the same whichever operand comes first.
pub proof fn lemma_merge_order_independent<G>(a: Map<G, int>, b: Map<G, int>)
    ensures
        spec_merged(a, b) == spec_merged(b, a),
{
    assert(spec_merged(a, b) =~= spec_merged(b, a));
}

/// Law: seeding with a zero-count vocabulary baseline is idempotent —
/// merging the same all-zero seed twice yields the same counts as merging
/// it once.
pub proof fn lemma_seed_idempotent<G>(seed: Map<G, int>, counts: Map<G, int>)
    requires
        forall|g: G| seed.dom().contains(g) ==> seed[g] == 0,
    ensures
        spec_merged(seed, spec_merged(seed, counts)) == spec_merged(seed, counts),
{
    assert forall|g: G| true implies map_count(seed, g) == 0 by {}
    assert(spec_merged(seed, spec_merged(seed, counts)) =~= spec_merged(seed, counts));
}

/// The count map of a table reads as its pointwise count at every key.
pub proof fn lemma_map_count_of_table<K: GramKey>(t: &CountTable<K>, g: K::V)
    ensures
        map_count(t.to_map(), g) == t.spec_count(g),
{
    if !t.key_views().contains(g) {
        lemma_count_in_absent(t.key_views(), t.count_seq(), g);
    }
}

/// Counts how often each distinct element occurs in `list`.
pub fn count_all<K: GramKey>(list: &Vec<K>) -> (t: CountTable<K>)
    requires
        list@.len() <= u32::MAX,
    ensures
        t.wf(),
        forall|g: K::V| #[trigger]
            t.spec_count(g) == occurrence_count(view_seq(list@), g),
        forall|g: K::V| #[trigger]
            t.key_views().contains(g) <==> view_seq(list@).contains(g),
        t.dom() == view_seq(list@).to_set(),
{
    let ghost grams = view_seq(list@);
    let n = list.len();
    let mut t = CountTable::<K>::new();
    proof {
        assert(grams.take(0) =~= Seq::<K::V>::empty());
    }
    let mut i: usize = 0;
    while i < n
        invariant
            n == list@.len(),
            n <= u32::MAX,
            i <= n,
            grams == view_seq(list@),
            grams.len() == n,
            t.wf(),
            forall|g: K::V| #[trigger]
                t.spec_count(g) == occurrence_count(grams.take(i as int), g),
            forall|g: K::V| #[trigger]
                t.key_views().contains(g) <==> grams.take(i as int).contains(g),
        decreases n - i,
    {
        let k = &list[i];
        proof {
            assert(grams[i as int] == k@);
            assert(grams.take(i + 1) =~= grams.take(i as int).push(k@));
            lemma_occurrence_count_push(grams.take(i as int), k@, k@);
            lemma_occurrence_count_le_len(grams.take(i as int), k@);
            assert forall|g: K::V| true implies (occurrence_count(grams.take(i + 1), g) == (
            if g == k@ {
                occurrence_count(grams.take(i as int), g) + 1
            } else {
                occurrence_count(grams.take(i as int), g)
            })) by {
                lemma_occurrence_count_push(grams.take(i as int), k@, g);
            }
        }
        let ghost prev_keys = t.key_views();
        t.add_to(k, 1);
        proof {
            assert forall|g: K::V| true implies (#[trigger] t.key_views().contains(g) <==> grams.take(
                i + 1,
            ).contains(g)) by {
                if g == k@ {
                    if prev_keys.contains(k@) {
                        assert(t.key_views() == prev_keys);
                    } else {
                        assert(t.key_views() == prev_keys.push(k@));
                        assert(t.key_views()[prev_keys.len() as int] == k@);
                    }
                    assert(grams.take(i + 1)[i as int] == g);
                } else {
                    if grams.take(i + 1).contains(g) {
                        let j = choose|j: int|
                            0 <= j < grams.take(i + 1).len() && #[trigger] grams.take(i + 1)[j]
                                == g;
                        assert(grams.take(i as int)[j] == g);
                    }
                    if prev_keys.contains(g) {
                        let j = choose|j: int|
                            0 <= j < prev_keys.len() && #[trigger] prev_keys[j] == g;
                        assert(t.key_views()[j] == g);
                    }
                    if t.key_views().contains(g) {
                        let j = choose|j: int|
                            0 <= j < t.key_views().len() && #[trigger] t.key_views()[j] == g;
                        if j < prev_keys.len() {
                            assert(prev_keys[j] == g);
                        }
                    }
                }
            }
        }
        i += 1;
    }
    proof {
        assert(grams.take(n as int) =~= grams);
        assert(t.dom() =~= grams.to_set());
    }
    t
}

/// Merges two count tables by adding the counts of shared keys.
pub fn merge_hashmaps_with<K: GramKey>(source: CountTable<K>, target: CountTable<K>) -> (r:
    CountTable<K>)
    requires
        source.wf(),
        target.wf(),
        forall|g: K::V| source.spec_count(g) + target.spec_count(g) <= u32::MAX,
    ensures
        r.wf(),
        forall|g: K::V| #[trigger]
            r.spec_count(g) == source.spec_count(g) + target.spec_count(g),
        forall|g: K::V| #[trigger]
            r.key_views().contains(g) <==> (source.key_views().contains(g)
                || target.key_views().contains(g)),
        r.to_map() == spec_merged(source.to_map(), target.to_map()),
{
    let n = source.len();
    let mut r = target;
    let mut i: usize = 0;
    while i < n
        invariant
            source.wf(),
            n == source.key_views().len(),
            i <= n,
            r.wf(),
            forall|g: K::V| source.spec_count(g) + target.spec_count(g) <= u32::MAX,
            forall|g: K::V| #[trigger]
                r.spec_count(g) == target.spec_count(g) + (if source.key_views().take(
                    i as int,
                ).contains(g) {
                    source.spec_count(g)
                } else {
                    0
                }),
            forall|g: K::V| #[trigger]
                r.key_views().contains(g) <==> (target.key_views().contains(g)
                    || source.key_views().take(i as int).contains(g)),
        decreases n - i,
    {
        let k = source.key_at(i);
        let c = source.count_at(i);
        proof {
            assert(source.key_views().take(i + 1) =~= source.key_views().take(i as int).push(k@));
            assert(!source.key_views().take(i as int).contains(k@)) by {
                if source.key_views().take(i as int).contains(k@) {
                    let j = choose|j: int|
                        0 <= j < i && #[trigger] source.key_views().take(i as int)[j] == k@;
                    assert(source.key_views()[j] == source.key_views()[i as int]);
                }
            }
        }
        let ghost prev = r;
        r.add_to(k, c);
        proof {
            assert forall|g: K::V| true implies (#[trigger] r.spec_count(g) == target.spec_count(g)
                + (if source.key_views().take(i + 1).contains(g) {
                source.spec_count(g)
            } else {
                0
            })) by {
                assert(prev.spec_count(g) == target.spec_count(g) + (if source.key_views().take(
                    i as int,
                ).contains(g) {
                    source.spec_count(g)
                } else {
                    0
                }));
                if g == k@ {
                    assert(r.spec_count(g) == prev.spec_count(g) + c);
                    assert(source.key_views().take(i + 1)[i as int] == g);
                } else {
                    assert(r.spec_count(g) == prev.spec_count(g));
                    if source.key_views().take(i + 1).contains(g) {
                        let j = choose|j: int|
                            0 <= j < i + 1 && #[trigger] source.key_views().take(i + 1)[j] == g;
                        assert(source.key_views().take(i as int)[j] == g);
                    }
                }
            }
            assert forall|g: K::V| true implies (#[trigger] r.key_views().contains(g) <==> (
            target.key_views().contains(g) || source.key_views().take(i + 1).contains(g))) by {
                assert(prev.key_views().contains(g) <==> (target.key_views().contains(g)
                    || source.key_views().take(i as int).contains(g)));
                if g == k@ {
                    assert(source.key_views().take(i + 1)[i as int] == g);
                    if prev.key_views().contains(k@) {
                        assert(r.key_views() == prev.key_views());
                    } else {
                        assert(r.key_views() == prev.key_views().push(k@));
                        assert(r.key_views()[prev.key_views().len() as int] == k@);
                    }
                } else {
                    if source.key_views().take(i + 1).contains(g) {
                        let j = choose|j: int|
                            0 <= j < i + 1 && #[trigger] source.key_views().take(i + 1)[j] == g;
                        assert(source.key_views().take(i as int)[j] == g);
                    }
                    if prev.key_views().contains(g) {
                        let j = choose|j: int|
                            0 <= j < prev.key_views().len() && #[trigger] prev.key_views()[j]
                                == g;
                        assert(r.key_views()[j] == g);
                    }
                    if r.key_views().contains(g) {
                        let j = choose|j: int|
                            0 <= j < r.key_views().len() && #[trigger] r.key_views()[j] == g;
                        if j < prev.key_views().len() {
                            assert(prev.key_views()[j] == g);
                        }
                    }
                }
            }
        }
        i += 1;
    }
    proof {
        assert(source.key_views().take(n as int) =~= source.key_views());
        assert forall|g: K::V| !source.key_views().contains(g) implies source.spec_count(g)
            == 0 by {
            lemma_count_in_absent(source.key_views(), source.count_seq(), g);
        }
        assert(r.to_map() =~= spec_merged(source.to_map(), target.to_map())) by {
            assert forall|g: K::V| r.key_views().contains(g) implies map_count(r.to_map(), g)
                == map_count(source.to_map(), g) + map_count(target.to_map(), g) by {
                lemma_map_count_of_table(&r, g);
                lemma_map_count_of_table(&source, g);
                lemma_map_count_of_table(&target, g);
            }
        }
    }
    r
}

/// Builds a table whose keys are the distinct elements of `list`, each
/// mapped to `value`.
pub fn to_hashmap_keys<K: GramKey>(list: &Vec<K>, value: u32) -> (t: CountTable<K>)
    ensures
        t.wf(),
        forall|g: K::V| #[trigger]
            t.key_views().contains(g) <==> view_seq(list@).contains(g),
        forall|g: K::V| #[trigger]
            t.spec_count(g) == if view_seq(list@).contains(g) {
                value
            } else {
                0u32
            },
        t.dom() == view_seq(list@).to_set(),
{
    let ghost grams = view_seq(list@);
    let n = list.len();
    let mut t = CountTable::<K>::new();
    let mut i: usize = 0;
    while i < n
        invariant
            n == list@.len(),
            i <= n,
            grams == view_seq(list@),
            grams.len() == n,
            t.wf(),
            forall|g: K::V| #[trigger]
                t.key_views().contains(g) <==> grams.take(i as int).contains(g),
            forall|g: K::V| #[trigger]
                t.spec_count(g) == if grams.take(i as int).contains(g) {
                    value
                } else {
                    0u32
                },
        decreases n - i,
    {
        let k = &list[i];
        proof {
            assert(grams[i as int] == k@);
            assert(grams.take(i + 1) =~= grams.take(i as int).push(k@));
        }
        let ghost prev = t;
        t.set(k, value);
        proof {
            assert forall|g: K::V| true implies (#[trigger] t.key_views().contains(g) <==> grams.take(
                i + 1,
            ).contains(g)) by {
                assert(prev.key_views().contains(g) <==> grams.take(i as int).contains(g));
                if g == k@ {
                    assert(grams.take(i + 1)[i as int] == g);
                    if prev.key_views().contains(k@) {
                        assert(t.key_views() == prev.key_views());
                    } else {
                        assert(t.key_views() == prev.key_views().push(k@));
                        assert(t.key_views()[prev.key_views().len() as int] == k@);
                    }
                } else {
                    if grams.take(i + 1).contains(g) {
                        let j = choose|j: int|
                            0 <= j < i + 1 && #[trigger] grams.take(i + 1)[j] == g;
                        assert(grams.take(i as int)[j] == g);
                    }
                    if prev.key_views().contains(g) {
                        let j = choose|j: int|
                            0 <= j < prev.key_views().len() && #[trigger] prev.key_views()[j]
                                == g;
                        assert(t.key_views()[j] == g);
                    }
                    if t.key_views().contains(g) {
                        let j = choose|j: int|
                            0 <= j < t.key_views().len() && #[trigger] t.key_views()[j] == g;
                        if j < prev.key_views().len() {
                            assert(prev.key_views()[j] == g);
                        }
                    }
                }
            }
            assert forall|g: K::V| true implies (#[trigger] t.spec_count(g) == (if grams.take(
                i + 1,
            ).contains(g) {
                value
            } else {
                0u32
            })) by {
                assert(prev.spec_count(g) == (if grams.take(i as int).contains(g) {
                    value
                } else {
                    0u32
                }));
                if g == k@ {
                    assert(grams.take(i + 1)[i as int] == g);
                } else {
                    assert(t.spec_count(g) == prev.spec_count(g));
                    if grams.take(i + 1).contains(g) {
                        let j = choose|j: int|
                            0 <= j < i + 1 && #[trigger] grams.take(i + 1)[j] == g;
                        assert(grams.take(i as int)[j] == g);
                    }
                    if grams.take(i as int).contains(g) {
                        let j = choose|j: int|
                            0 <= j < i && #[trigger] grams.take(i as int)[j] == g;
                        assert(grams.take(i + 1)[j] == g);
                    }
                }
            }
        }
        i += 1;
    }
    proof {
        assert(grams.take(n as int) =~= grams);
        assert(t.dom() =~= grams.to_set());
    }
    t
}

/// Counts every element of every inner list, aggregating across the lists.
pub fn count_nested<K: GramKey>(list_of_lists: &Vec<Vec<K>>) -> (t: CountTable<K>)
    requires
        nested_views(list_of_lists@).flatten().len() <= u32::MAX,
    ensures
        t.wf(),
        forall|g: K::V| #[trigger]
            t.spec_count(g) == occurrence_count(nested_views(list_of_lists@).flatten(), g),
        forall|g: K::V| #[trigger]
            t.key_views().contains(g) <==> nested_views(list_of_lists@).flatten().contains(g),
        t.dom() == nested_views(list_of_lists@).flatten().to_set(),
{
    let ghost lists = nested_views(list_of_lists@);
    let ghost flat = lists.flatten();
    let n = list_of_lists.len();
    let mut t = CountTable::<K>::new();
    proof {
        assert(lists.take(0) =~= Seq::<Seq<K::V>>::empty());
        assert(lists.take(0).flatten() =~= Seq::<K::V>::empty());
    }
    let mut i: usize = 0;
    while i < n
        invariant
            n == list_of_lists@.len(),
            lists == nested_views(list_of_lists@),
            flat == lists.flatten(),
            flat.len() <= u32::MAX,
            lists.len() == n,
            i <= n,
            t.wf(),
            forall|g: K::V| #[trigger]
                t.spec_count(g) == occurrence_count(lists.take(i as int).flatten(), g),
            forall|g: K::V| #[trigger]
                t.key_views().contains(g) <==> lists.take(i as int).flatten().contains(g),
        decreases n - i,
    {
        let ghost prefix = lists.take(i as int).flatten();
        proof {
            lemma_take_flatten_len(lists, i as int);
            assert(lists[i as int] == view_seq(list_of_lists@[i as int]@));
            assert(list_of_lists@[i as int]@.len() == lists[i as int].len());
        }
        let cur = count_all(&list_of_lists[i]);
        proof {
            assert(lists.take(i + 1) =~= lists.take(i as int).push(lists[i as int]));
            lists.take(i as int).lemma_flatten_push(lists[i as int]);
            assert(lists.take(i + 1).flatten() == prefix + lists[i as int]);
            assert forall|g: K::V| true implies occurrence_count(lists.take(i + 1).flatten(), g)
                == occurrence_count(prefix, g) + occurrence_count(lists[i as int], g) by {
                lemma_occurrence_count_add(prefix, lists[i as int], g);
            }
            assert forall|g: K::V| true implies cur.spec_count(g) + t.spec_count(g)
                <= u32::MAX by {
                lemma_occurrence_count_le_len(lists.take(i + 1).flatten(), g);
            }
        }
        let ghost prev = t;
        let merged = merge_hashmaps_with(cur, t);
        t = merged;
        proof {
            assert forall|g: K::V| true implies (#[trigger] t.spec_count(g) == occurrence_count(
                lists.take(i + 1).flatten(),
                g,
            )) by {
                assert(t.spec_count(g) == cur.spec_count(g) + prev.spec_count(g));
                assert(cur.spec_count(g) == occurrence_count(lists[i as int], g));
                assert(prev.spec_count(g) == occurrence_count(prefix, g));
                lemma_occurrence_count_add(prefix, lists[i as int], g);
            }
            assert forall|g: K::V| true implies (#[trigger] t.key_views().contains(g) <==> lists.take(
                i + 1,
            ).flatten().contains(g)) by {
                assert(t.key_views().contains(g) <==> (cur.key_views().contains(g)
                    || prev.key_views().contains(g)));
                assert(cur.key_views().contains(g) <==> lists[i as int].contains(g));
                assert(prev.key_views().contains(g) <==> prefix.contains(g));
                if lists.take(i + 1).flatten().contains(g) {
                    let j = choose|j: int|
                        0 <= j < lists.take(i + 1).flatten().len() && #[trigger] lists.take(
                            i + 1,
                        ).flatten()[j] == g;
                    if j < prefix.len() {
                        assert(prefix[j] == g);
                    } else {
                        assert(lists[i as int][j - prefix.len()] == g);
                    }
                }
                if prefix.contains(g) {
                    let j = choose|j: int| 0 <= j < prefix.len() && #[trigger] prefix[j] == g;
                    assert(lists.take(i + 1).flatten()[j] == g);
                }
                if lists[i as int].contains(g) {
                    let j = choose|j: int|
                        0 <= j < lists[i as int].len() && #[trigger] lists[i as int][j] == g;
                    assert(lists.take(i + 1).flatten()[prefix.len() + j] == g);
                }
            }
        }
        i += 1;
    }
    proof {
        assert(lists.take(n as int) =~= lists);
        assert(t.dom() =~= flat.to_set());
    }
    t
}

/// The flattened prefix of a sequence of sequences is no longer than the
/// whole flattened sequence.
pub proof fn lemma_take_flatten_len<G>(lists: Seq<Seq<G>>, i: int)
    requires
        0 <= i < lists.len(),
    ensures
        lists.take(i).flatten().len() + lists[i].len() <= lists.flatten().len(),
{
    lemma_flatten_concat_split(lists, i + 1);
    lemma_flatten_concat_split(lists.take(i + 1), i);
    assert(lists.take(i + 1).take(i) =~= lists.take(i));
    assert(lists.take(i + 1).skip(i) =~= seq![lists[i]]);
    seq![lists[i]].lemma_flatten_one_element();
}

/// Flattening distributes over splitting a sequence of sequences at `i`.
pub proof fn lemma_flatten_concat_split<G>(lists: Seq<Seq<G>>, i: int)
    requires
        0 <= i <= lists.len(),
    ensures
        lists.flatten() == lists.take(i).flatten() + lists.skip(i).flatten(),
{
    assert(lists =~= lists.take(i) + lists.skip(i));
    vstd::seq_lib::lemma_flatten_concat(lists.take(i), lists.skip(i));
}

/// The adjacent word pairs of one word list, in order.
pub fn word_pairs(words: &Vec<String>) -> (pairs: Vec<(String, String)>)
    ensures
        view_seq(pairs@) == spec_line_pairs(view_seq(words@)),
{
    let ghost ws = view_seq(words@);
    let n = words.len();
    let mut pairs: Vec<(String, String)> = Vec::new();
    if n < 1 {
        proof {
            assert(view_seq(pairs@) =~= spec_line_pairs(ws));
        }
        return pairs;
    }
    let mut j: usize = 1;
    proof {
        assert(view_seq(pairs@) =~= spec_line_pairs(ws).take(0));
    }
    while j < n
        invariant
            n == words@.len(),
            n >= 1,
            ws == view_seq(words@),
            1 <= j <= n,
            pairs@.len() == j - 1,
            view_seq(pairs@) == spec_line_pairs(ws).take(j - 1),
        decreases n - j,
    {
        let first = words[j - 1].clone();
        let second = words[j].clone();
        let ghost prev = pairs@;
        pairs.push((first, second));
        proof {
            assert(view_seq(pairs@) =~= view_seq(prev).push((ws[j - 1], ws[j as int])));
            assert(spec_line_pairs(ws).take(j as int) =~= spec_line_pairs(ws).take(j - 1).push(
                spec_line_pairs(ws)[j - 1],
            ));
            assert(spec_line_pairs(ws)[j - 1] == (ws[j - 1], ws[j as int]));
        }
        j += 1;
    }
    proof {
        assert(spec_line_pairs(ws).take(n - 1) =~= spec_line_pairs(ws));
    }
    pairs
}

/// Sums all counts of a table.
pub fn table_total<K: GramKey>(t: &CountTable<K>) -> (s: u64)
    requires
        t.wf(),
        sum_vals(t.count_seq()) <= u32::MAX,
    ensures
        s as int == sum_vals(t.count_seq()),
{
    let ghost vals = t.count_seq();
    let n = t.len();
    let mut s: u64 = 0;
    proof {
        assert(vals.take(0) =~= Seq::<u32>::empty());
    }
    let mut i: usize = 0;
    while i < n
        invariant
            t.wf(),
            vals == t.count_seq(),
            sum_vals(vals) <= u32::MAX,
            n == t.key_views().len(),
            i <= n,
            s as int == sum_vals(vals.take(i as int)),
        decreases n - i,
    {
        proof {
            assert(vals.take(i + 1).drop_last() =~= vals.take(i as int));
            assert(vals.take(i + 1).last() == vals[i as int]);
            lemma_sum_vals_take_le(vals, i + 1);
            lemma_sum_vals_nonneg(vals.take(i as int));
        }
        let c = t.count_at(i);
        s = s + c as u64;
        i += 1;
    }
    proof {
        assert(vals.take(n as int) =~= vals);
    }
    s
}

/// Builds the frequency-of-frequencies histogram of a table: how many
/// distinct keys carry each count value.
pub fn frequency_of_frequencies<K: GramKey>(t: &CountTable<K>) -> (f: CountTable<u32>)
    requires
        t.wf(),
        t.key_views().len() <= u32::MAX,
    ensures
        f.wf(),
        forall|v: u32| #[trigger] f.spec_count(v) == occurrence_count(t.count_seq(), v),
{
    let ghost vals = t.count_seq();
    let n = t.len();
    let mut f = CountTable::<u32>::new();
    proof {
        assert(vals.take(0) =~= Seq::<u32>::empty());
        assert forall|v: u32| true implies #[trigger] f.spec_count(v) == occurrence_count(
            vals.take(0),
            v,
        ) by {
            lemma_occurrence_count_empty(v);
        }
    }
    let mut i: usize = 0;
    while i < n
        invariant
            t.wf(),
            vals == t.count_seq(),
            n == t.key_views().len(),
            n <= u32::MAX,
            i <= n,
            f.wf(),
            forall|v: u32| #[trigger] f.spec_count(v) == occurrence_count(vals.take(i as int), v),
        decreases n - i,
    {
        let c = t.count_at(i);
        proof {
            assert(vals.take(i + 1) =~= vals.take(i as int).push(c));
            lemma_occurrence_count_le_len(vals.take(i as int), c);
        }
        let ghost prev = f;
        f.add_to(&c, 1);
        proof {
            assert forall|v: u32| true implies #[trigger] f.spec_count(v) == occurrence_count(
                vals.take(i + 1),
                v,
            ) by {
                assert(prev.spec_count(v) == occurrence_count(vals.take(i as int), v));
                lemma_occurrence_count_push(vals.take(i as int), c, v);
                if v == c {
                    assert(f.spec_count(v) == prev.spec_count(v) + 1);
                } else {
                    assert(f.spec_count(v) == prev.spec_count(v));
                }
            }
        }
        i += 1;
    }
    proof {
        assert(vals.take(n as int) =~= vals);
    }
    f
}

/// Splits each corpus line into its whitespace-delimited words.
pub fn lines_to_word_lists(corpus: &Vec<String>) -> (r: Vec<Vec<String>>)
    ensures
        r@.len() == corpus@.len(),
        forall|i: int|
            0 <= i < corpus@.len() ==> view_seq(#[trigger] r@[i]@) == spec_split(corpus@[i]@),
{
    let n = corpus.len();
    let mut r: Vec<Vec<String>> = Vec::new();
    let mut i: usize = 0;
    while i < n
        invariant
            n == corpus@.len(),
            i <= n,
            r@.len() == i,
            forall|j: int|
                0 <= j < i ==> view_seq(#[trigger] r@[j]@) == spec_split(corpus@[j]@),
        decreases n - i,
    {
        let words = split_line(corpus[i].as_str());
        r.push(words);
        i += 1;
    }
    r
}

} // verus!
