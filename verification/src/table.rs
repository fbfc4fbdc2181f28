//! Count tables: finite mappings from grams to occurrence counts.
//!
//! A `CountTable` stores each distinct key exactly once together with its
//! count. Keys are abstracted by the `GramKey` trait, implemented for
//! single words (`String`), word pairs (`(String, String)`) and plain
//! integers (`u32`, used for frequency-of-frequencies histograms).
use vstd::prelude::*;

verus! {

/// A key usable in a `CountTable`: it can be compared and cloned, and both
/// operations agree with its mathematical view.
pub trait GramKey: View + Sized {
    /// Equality test that decides equality of the views.
    fn key_eq(&self, other: &Self) -> (b: bool)
        ensures
            b == (self@ == other@),
    ;

    /// Clone that preserves the view.
    fn key_clone(&self) -> (r: Self)
        ensures
            r@ == self@,
    ;
}

impl GramKey for String {
    fn key_eq(&self, other: &Self) -> (b: bool)
        ensures
            b == (self@ == other@),
    {
        self.eq(other)
    }

    fn key_clone(&self) -> (r: Self)
        ensures
            r@ == self@,
    {
        self.clone()
    }
}

impl GramKey for (String, String) {
    fn key_eq(&self, other: &Self) -> (b: bool)
        ensures
            b == (self@ == other@),
    {
        self.0.eq(&other.0) && self.1.eq(&other.1)
    }

    fn key_clone(&self) -> (r: Self)
        ensures
            r@ == self@,
    {
        (self.0.clone(), self.1.clone())
    }
}

impl GramKey for u32 {
    fn key_eq(&self, other: &Self) -> (b: bool)
        ensures
            b == (self@ == other@),
    {
        *self == *other
    }

    fn key_clone(&self) -> (r: Self)
        ensures
            r@ == self@,
    {
        *self
    }
}

/// The views of the elements of a list, in order.
pub open spec fn view_seq<K: View>(list: Seq<K>) -> Seq<K::V> {
    list.map_values(|k: K| k@)
}

/// The views of a list of lists, element lists viewed in order.
pub open spec fn nested_views<K: View>(lists: Seq<Vec<K>>) -> Seq<Seq<K::V>> {
    lists.map_values(|v: Vec<K>| view_seq(v@))
}

/// The count associated with key `g` in the association lists `keys` /
/// `counts`; 0 when `g` is absent.
pub open spec fn count_in<G>(keys: Seq<G>, counts: Seq<u32>, g: G) -> u32
    decreases keys.len(),
{
    if keys.len() == 0 {
        0
    } else if keys.last() == g {
        counts[keys.len() - 1]
    } else {
        count_in(keys.drop_last(), counts.drop_last(), g)
    }
}

pub proof fn lemma_count_in_absent<G>(keys: Seq<G>, counts: Seq<u32>, g: G)
    requires
        !keys.contains(g),
    ensures
        count_in(keys, counts, g) == 0,
    decreases keys.len(),
{
    if keys.len() > 0 {
        assert(keys.last() != g);
        assert(!keys.drop_last().contains(g)) by {
            if keys.drop_last().contains(g) {
                let i = choose|i: int| 0 <= i < keys.drop_last().len() && keys.drop_last()[i] == g;
                assert(keys[i] == g);
            }
        }
        lemma_count_in_absent(keys.drop_last(), counts.drop_last(), g);
    }
}

pub proof fn lemma_count_in_at<G>(keys: Seq<G>, counts: Seq<u32>, g: G, i: int)
    requires
        keys.no_duplicates(),
        counts.len() == keys.len(),
        0 <= i < keys.len(),
        keys[i] == g,
    ensures
        count_in(keys, counts, g) == counts[i],
    decreases keys.len(),
{
    if i == keys.len() - 1 {
        assert(keys.last() == g);
    } else {
        assert(keys.last() != g);
        assert(keys.drop_last()[i] == g);
        lemma_count_in_at(keys.drop_last(), counts.drop_last(), g, i);
    }
}

pub proof fn lemma_count_in_push<G>(keys: Seq<G>, counts: Seq<u32>, k0: G, c0: u32, g: G)
    requires
        counts.len() == keys.len(),
    ensures
        count_in(keys.push(k0), counts.push(c0), g) == if g == k0 {
            c0
        } else {
            count_in(keys, counts, g)
        },
{
    assert(keys.push(k0).drop_last() =~= keys);
    assert(counts.push(c0).drop_last() =~= counts);
}

pub proof fn lemma_count_in_update<G>(keys: Seq<G>, counts: Seq<u32>, i: int, v: u32, g: G)
    requires
        keys.no_duplicates(),
        counts.len() == keys.len(),
        0 <= i < keys.len(),
    ensures
        count_in(keys, counts.update(i, v), g) == if keys[i] == g {
            v
        } else {
            count_in(keys, counts, g)
        },
    decreases keys.len(),
{
    let n = keys.len() as int;
    if i == n - 1 {
        if keys.last() == g {
        } else {
            assert(counts.update(i, v).drop_last() =~= counts.drop_last());
        }
    } else {
        if keys.last() == g {
            assert(keys[n - 1] == g);
            assert(keys[i] != g);
        } else {
            assert(counts.update(i, v).drop_last() =~= counts.drop_last().update(i, v));
            lemma_count_in_update(keys.drop_last(), counts.drop_last(), i, v, g);
            assert(keys.drop_last()[i] == keys[i]);
        }
    }
}

/// A finite mapping from gram keys to `u32` occurrence counts. Absent keys
/// are read as count 0.
pub struct CountTable<K: GramKey> {
    keys: Vec<K>,
    counts: Vec<u32>,
}

/// The value of map `m` at `g`, defaulting to 0 outside the domain.
pub open spec fn map_count<G>(m: Map<G, int>, g: G) -> int {
    if m.dom().contains(g) {
        m[g]
    } else {
        0
    }
}

impl<K: GramKey> CountTable<K> {
    /// The views of the stored keys, in storage order.
    pub closed spec fn key_views(&self) -> Seq<K::V> {
        self.keys@.map_values(|k: K| k@)
    }

    /// The stored counts, in storage order.
    pub closed spec fn count_seq(&self) -> Seq<u32> {
        self.counts@
    }

    /// Well-formedness: counts match keys one to one, and no key occurs twice.
    pub open spec fn wf(&self) -> bool {
        &&& self.count_seq().len() == self.key_views().len()
        &&& self.key_views().no_duplicates()
    }

    /// The set of keys present in the table.
    pub open spec fn dom(&self) -> Set<K::V> {
        self.key_views().to_set()
    }

    /// The count recorded for `g`; 0 when `g` is absent.
    pub open spec fn spec_count(&self, g: K::V) -> u32 {
        count_in(self.key_views(), self.count_seq(), g)
    }

    /// The table as a mathematical map from key views to counts.
    pub open spec fn to_map(&self) -> Map<K::V, int> {
        Map::new(|g: K::V| self.key_views().contains(g), |g: K::V| self.spec_count(g) as int)
    }

    /// An empty table.
    pub fn new() -> (t: Self)
        ensures
            t.wf(),
            t.key_views() == Seq::<K::V>::empty(),
            t.count_seq() == Seq::<u32>::empty(),
    {
        CountTable { keys: Vec::new(), counts: Vec::new() }
    }

    /// Number of distinct keys in the table.
    pub fn len(&self) -> (n: usize)
        ensures
            n == self.key_views().len(),
    {
        self.keys.len()
    }

    /// Index of `key` in the storage order, if present.
    fn find(&self, key: &K) -> (r: Option<usize>)
        requires
            self.wf(),
        ensures
            match r {
                Some(i) => i < self.key_views().len() && self.key_views()[i as int] == key@,
                None => !self.key_views().contains(key@),
            },
    {
        let n = self.keys.len();
        let mut i: usize = 0;
        while i < n
            invariant
                self.wf(),
                n == self.key_views().len(),
                i <= n,
                forall|j: int| 0 <= j < i ==> self.key_views()[j] != key@,
            decreases n - i,
        {
            if self.keys[i].key_eq(key) {
                assert(self.key_views()[i as int] == self.keys@[i as int]@);
                return Some(i);
            }
            assert(self.key_views()[i as int] == self.keys@[i as int]@);
            i += 1;
        }
        assert forall|j: int| 0 <= j < self.key_views().len() implies self.key_views()[j]
            != key@ by {}
        None
    }

    /// Whether `key` is present.
    pub fn contains_key(&self, key: &K) -> (b: bool)
        requires
            self.wf(),
        ensures
            b == self.key_views().contains(key@),
    {
        match self.find(key) {
            Some(i) => {
                assert(self.key_views().contains(key@));
                true
            },
            None => false,
        }
    }

    /// The count recorded for `key`, if present.
    pub fn get(&self, key: &K) -> (r: Option<u32>)
        requires
            self.wf(),
        ensures
            match r {
                Some(c) => self.key_views().contains(key@) && c == self.spec_count(key@),
                None => !self.key_views().contains(key@) && self.spec_count(key@) == 0,
            },
    {
        match self.find(key) {
            Some(i) => {
                proof {
                    lemma_count_in_at(self.key_views(), self.count_seq(), key@, i as int);
                    assert(self.key_views().contains(key@));
                }
                Some(self.counts[i])
            },
            None => {
                proof {
                    lemma_count_in_absent(self.key_views(), self.count_seq(), key@);
                }
                None
            },
        }
    }

    /// Sets the count of `key` to `value`, inserting the key if absent.
    pub fn set(&mut self, key: &K, value: u32)
        requires
            old(self).wf(),
        ensures
            final(self).wf(),
            final(self).key_views() == if old(self).key_views().contains(key@) {
                old(self).key_views()
            } else {
                old(self).key_views().push(key@)
            },
            final(self).spec_count(key@) == value,
            forall|g: K::V| g != key@ ==> final(self).spec_count(g) == old(self).spec_count(g),
    {
        match self.find(key) {
            Some(i) => {
                self.counts[i] = value;
                proof {
                    assert forall|g: K::V| true implies self.spec_count(g) == (if g == key@ {
                        value as u32
                    } else {
                        old(self).spec_count(g)
                    }) by {
                        lemma_count_in_update(
                            old(self).key_views(),
                            old(self).count_seq(),
                            i as int,
                            value,
                            g,
                        );
                        if old(self).key_views()[i as int] == g {
                            assert(g == key@);
                        }
                    }
                }
            },
            None => {
                self.keys.push(key.key_clone());
                self.counts.push(value);
                proof {
                    assert(self.key_views() =~= old(self).key_views().push(key@));
                    assert forall|g: K::V| true implies self.spec_count(g) == (if g == key@ {
                        value as u32
                    } else {
                        old(self).spec_count(g)
                    }) by {
                        lemma_count_in_push(
                            old(self).key_views(),
                            old(self).count_seq(),
                            key@,
                            value,
                            g,
                        );
                        if g == key@ {
                            lemma_count_in_absent(old(self).key_views(), old(self).count_seq(), g);
                        }
                    }
                }
            },
        }
    }

    /// Adds `value` to the count of `key`, inserting the key at `value` if
    /// absent.
    pub fn add_to(&mut self, key: &K, value: u32)
        requires
            old(self).wf(),
            old(self).spec_count(key@) + value <= u32::MAX,
        ensures
            final(self).wf(),
            final(self).key_views() == if old(self).key_views().contains(key@) {
                old(self).key_views()
            } else {
                old(self).key_views().push(key@)
            },
            final(self).spec_count(key@) == old(self).spec_count(key@) + value,
            forall|g: K::V| g != key@ ==> final(self).spec_count(g) == old(self).spec_count(g),
    {
        let current = match self.get(key) {
            Some(c) => c,
            None => 0,
        };
        self.set(key, current + value);
    }

    /// The key stored at position `i`.
    pub fn key_at(&self, i: usize) -> (k: &K)
        requires
            i < self.key_views().len(),
        ensures
            k@ == self.key_views()[i as int],
    {
        assert(self.key_views()[i as int] == self.keys@[i as int]@);
        &self.keys[i]
    }

    /// The count stored at position `i`.
    pub fn count_at(&self, i: usize) -> (c: u32)
        requires
            self.wf(),
            i < self.key_views().len(),
        ensures
            c == self.count_seq()[i as int],
            c == self.spec_count(self.key_views()[i as int]),
    {
        proof {
            lemma_count_in_at(
                self.key_views(),
                self.count_seq(),
                self.key_views()[i as int],
                i as int,
            );
        }
        self.counts[i]
    }
}

} // verus!
