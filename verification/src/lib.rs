//! N-gram probability estimation over a line-based text corpus.
//!
//! The library tokenizes corpus lines into words, aggregates unigram and
//! bigram counts, merges them with a caller-supplied vocabulary baseline,
//! and turns the counts into probabilities under additive (add-k) and
//! Good-Turing smoothing. Probabilities are returned rounded to two
//! decimal places and represented exactly as integer hundredths.
pub mod counting;
pub mod probability;
pub mod table;
pub mod tokenize;
pub mod utils;

use vstd::prelude::*;

use crate::counting::{
    lemma_flatten_contains, lemma_flatten_len_mono, lemma_histogram, lemma_occ_vals_eq_card,
    lemma_occurrences_mass, lemma_sum_vals_eq_sum_occurrences, sum_occurrences, sum_vals,
};
use crate::probability::{gram_probability, probability_hundredths};
use crate::table::{lemma_count_in_at, nested_views, view_seq, CountTable, GramKey};
use crate::tokenize::{
    lemma_tokens_le_chars, spec_char_count, spec_line_pairs, spec_split, spec_tokens,
    spec_word_lists,
};
use crate::utils::{
    count_nested, frequency_of_frequencies, lemma_occurrence_count_le_len, lines_to_word_lists,
    merge_hashmaps_with, occurrence_count, table_total, to_hashmap_keys, word_pairs,
};
use vstd::seq_lib::seq_to_set_is_finite;
use vstd::set::group_set_axioms;
use vstd::set_lib::lemma_len_union;

verus! {

/// Smoothing configuration for the estimators.
///
/// `add_k_smoothing` is the additive (Laplace) constant added to every
/// smoothed count; `good_turing` switches Good-Turing frequency
/// discounting on. The two options are independent; when both are set,
/// the additive constant applies to the Good-Turing-adjusted count.
pub struct Options {
    add_k_smoothing: u32,
    good_turing: bool,
}

impl Options {
    /// The additive smoothing constant currently configured.
    pub closed spec fn spec_add_k(&self) -> u32 {
        self.add_k_smoothing
    }

    /// Whether Good-Turing discounting is currently configured.
    pub closed spec fn spec_good_turing(&self) -> bool {
        self.good_turing
    }

    /// Default options: no additive smoothing, no Good-Turing.
    pub fn new() -> (r: Options)
        ensures
            r.spec_add_k() == 0,
            !r.spec_good_turing(),
    {
        Options { add_k_smoothing: 0, good_turing: false }
    }

    /// Sets the additive smoothing constant, leaving Good-Turing as it was.
    pub fn with_add_k_smoothing(self, k: u32) -> (r: Self)
        ensures
            r.spec_add_k() == k,
            r.spec_good_turing() == self.spec_good_turing(),
    {
        Options { add_k_smoothing: k, good_turing: self.good_turing }
    }

    /// Switches Good-Turing discounting, leaving the additive constant as it was.
    pub fn with_good_turing(self, on: bool) -> (r: Self)
        ensures
            r.spec_good_turing() == on,
            r.spec_add_k() == self.spec_add_k(),
    {
        Options { add_k_smoothing: self.add_k_smoothing, good_turing: on }
    }
}

impl Default for Options {
    fn default() -> (r: Options)
        ensures
            r.spec_add_k() == 0,
            !r.spec_good_turing(),
    {
        Options::new()
    }
}

/// How often word `w` occurs as a token of the corpus.
pub open spec fn spec_unigram_count(corpus: Seq<Seq<char>>, w: Seq<char>) -> nat {
    occurrence_count(spec_tokens(corpus), w)
}

/// The unigram key set: every corpus token plus every vocabulary word.
pub open spec fn spec_unigram_dom(corpus: Seq<Seq<char>>, vocab: Seq<Seq<char>>) -> Set<Seq<char>> {
    spec_tokens(corpus).to_set().union(vocab.to_set())
}

/// Frequency of frequencies: how many distinct unigram keys occur exactly
/// `v` times in the corpus.
pub open spec fn spec_uni_freq(corpus: Seq<Seq<char>>, vocab: Seq<Seq<char>>, v: int) -> nat {
    spec_unigram_dom(corpus, vocab).filter(|w: Seq<char>| spec_unigram_count(corpus, w) == v).len()
}

/// The unigram probability denominator: total token count plus `k` for
/// each distinct key.
pub open spec fn spec_unigram_denominator(
    corpus: Seq<Seq<char>>,
    vocab: Seq<Seq<char>>,
    k: int,
) -> int {
    spec_tokens(corpus).len() + k * spec_unigram_dom(corpus, vocab).len()
}

/// The rounded probability, in hundredths, assigned to unigram key `w`.
pub open spec fn spec_unigram_probability(
    corpus: Seq<Seq<char>>,
    vocab: Seq<Seq<char>>,
    k: int,
    gt: bool,
    w: Seq<char>,
) -> int {
    let c = spec_unigram_count(corpus, w) as int;
    gram_probability(
        c,
        k,
        gt,
        spec_uni_freq(corpus, vocab, c) as int,
        spec_uni_freq(corpus, vocab, c + 1) as int,
        spec_uni_freq(corpus, vocab, 1) as int,
        spec_unigram_denominator(corpus, vocab, k),
    )
}

/// The key views of a unigram probability table, in order.
pub open spec fn entry_keys(entries: Seq<(String, u64)>) -> Seq<Seq<char>> {
    entries.map_values(|e: (String, u64)| e.0@)
}

/// All adjacent word pairs of the corpus, line by line and in order.
pub open spec fn spec_bigram_tokens(corpus: Seq<Seq<char>>) -> Seq<(Seq<char>, Seq<char>)> {
    spec_word_lists(corpus).map_values(|ws: Seq<Seq<char>>| spec_line_pairs(ws)).flatten()
}

/// How often the ordered pair `p` occurs as adjacent words in the corpus.
pub open spec fn spec_bigram_count(corpus: Seq<Seq<char>>, p: (Seq<char>, Seq<char>)) -> nat {
    occurrence_count(spec_bigram_tokens(corpus), p)
}

/// The bigram key set: every corpus pair plus every vocabulary pair.
pub open spec fn spec_bigram_dom(
    corpus: Seq<Seq<char>>,
    vocab: Seq<(Seq<char>, Seq<char>)>,
) -> Set<(Seq<char>, Seq<char>)> {
    spec_bigram_tokens(corpus).to_set().union(vocab.to_set())
}

/// Frequency of frequencies over bigram counts.
pub open spec fn spec_bi_freq(
    corpus: Seq<Seq<char>>,
    vocab: Seq<(Seq<char>, Seq<char>)>,
    v: int,
) -> nat {
    spec_bigram_dom(corpus, vocab).filter(
        |p: (Seq<char>, Seq<char>)| spec_bigram_count(corpus, p) == v,
    ).len()
}

/// The words of a bigram vocabulary, first positions then second positions.
pub open spec fn spec_vocab_word_list(vocab: Seq<(Seq<char>, Seq<char>)>) -> Seq<Seq<char>> {
    vocab.map_values(|p: (Seq<char>, Seq<char>)| p.0) + vocab.map_values(
        |p: (Seq<char>, Seq<char>)| p.1,
    )
}

/// The effective vocabulary size for bigram smoothing: the distinct corpus
/// words plus those vocabulary words (from either position) that are not
/// corpus words.
pub open spec fn spec_effective_vocab_size(
    corpus: Seq<Seq<char>>,
    vocab: Seq<(Seq<char>, Seq<char>)>,
) -> nat {
    spec_tokens(corpus).to_set().len() + spec_vocab_word_list(vocab).to_set().difference(
        spec_tokens(corpus).to_set(),
    ).len()
}

/// The bigram probability denominator for pair `p`: the corpus count of
/// its first word plus `k` for each effective vocabulary member.
pub open spec fn spec_bigram_denominator(
    corpus: Seq<Seq<char>>,
    vocab: Seq<(Seq<char>, Seq<char>)>,
    k: int,
    p: (Seq<char>, Seq<char>),
) -> int {
    spec_unigram_count(corpus, p.0) + k * spec_effective_vocab_size(corpus, vocab)
}

/// The rounded probability, in hundredths, assigned to bigram key `p`.
pub open spec fn spec_bigram_probability(
    corpus: Seq<Seq<char>>,
    vocab: Seq<(Seq<char>, Seq<char>)>,
    k: int,
    gt: bool,
    p: (Seq<char>, Seq<char>),
) -> int {
    let c = spec_bigram_count(corpus, p) as int;
    gram_probability(
        c,
        k,
        gt,
        spec_bi_freq(corpus, vocab, c) as int,
        spec_bi_freq(corpus, vocab, c + 1) as int,
        spec_bi_freq(corpus, vocab, 1) as int,
        spec_bigram_denominator(corpus, vocab, k, p),
    )
}

/// Whether every vocabulary pair's first word occurs in the corpus. When
/// this fails the bigram estimator has no denominator for the pair and
/// reports an `InputError` instead of defaulting it.
pub open spec fn spec_bigram_vocab_ok(
    corpus: Seq<Seq<char>>,
    vocab: Seq<(Seq<char>, Seq<char>)>,
) -> bool {
    forall|i: int|
        0 <= i < vocab.len() ==> spec_tokens(corpus).contains((#[trigger] vocab[i]).0)
}

/// The key views of a bigram probability table, in order.
pub open spec fn pair_entry_keys(entries: Seq<((String, String), u64)>) -> Seq<
    (Seq<char>, Seq<char>),
> {
    entries.map_values(|e: ((String, String), u64)| e.0@)
}

/// Rejected input: a vocabulary bigram whose first word never occurs in
/// the corpus, so no denominator exists for it.
#[derive(Debug)]
pub struct InputError {
    /// The offending first word.
    pub first_word: String,
}

/// Law: the unsmoothed unigram distribution over the corpus's own words
/// has total probability mass 1. With no extra vocabulary and no
/// smoothing, each word's probability numerator is its count, and the
/// counts over any duplicate-free cover of the corpus words sum exactly to
/// the denominator (the total token count).
pub proof fn lemma_unigram_probability_mass(corpus: Seq<Seq<char>>, words: Seq<Seq<char>>)
    requires
        words.no_duplicates(),
        forall|w: Seq<char>| spec_tokens(corpus).contains(w) ==> words.contains(w),
    ensures
        sum_occurrences(words, spec_tokens(corpus)) == spec_tokens(corpus).len(),
        sum_occurrences(words, spec_tokens(corpus)) == spec_unigram_denominator(
            corpus,
            Seq::<Seq<char>>::empty(),
            0,
        ),
        forall|i: int|
            0 <= i < words.len() ==> crate::probability::smoothed_num(
                spec_unigram_count(corpus, #[trigger] words[i]) as int,
                0,
                false,
                spec_uni_freq(corpus, Seq::<Seq<char>>::empty(), spec_unigram_count(corpus, words[i]) as int) as int,
                spec_uni_freq(corpus, Seq::<Seq<char>>::empty(), spec_unigram_count(corpus, words[i]) as int + 1) as int,
                spec_uni_freq(corpus, Seq::<Seq<char>>::empty(), 1) as int,
            ) == spec_unigram_count(corpus, words[i]),
{
    lemma_occurrences_mass(words, spec_tokens(corpus));
    assert(0 * (spec_unigram_dom(corpus, Seq::<Seq<char>>::empty()).len() as int) == 0)
        by (nonlinear_arith);
}

/// Law: a vocabulary word that never occurs in the corpus has merged count
/// 0. Its probability is therefore exactly 0.00 without smoothing; under
/// add-k smoothing its exact (unrounded) probability numerator is `k`; and
/// under Good-Turing discounting its numerator is `N(1) + k`, the number
/// of words seen once plus the additive constant.
pub proof fn lemma_absent_vocabulary_word(
    corpus: Seq<Seq<char>>,
    vocab: Seq<Seq<char>>,
    k: int,
    w: Seq<char>,
)
    requires
        vocab.contains(w),
        !spec_tokens(corpus).contains(w),
        k >= 0,
    ensures
        spec_unigram_count(corpus, w) == 0,
        spec_unigram_probability(corpus, vocab, 0, false, w) == 0,
        crate::probability::smoothed_num(
            0,
            k,
            false,
            spec_uni_freq(corpus, vocab, 0) as int,
            spec_uni_freq(corpus, vocab, 1) as int,
            spec_uni_freq(corpus, vocab, 1) as int,
        ) == k,
        crate::probability::smoothed_num(
            0,
            k,
            true,
            spec_uni_freq(corpus, vocab, 0) as int,
            spec_uni_freq(corpus, vocab, 1) as int,
            spec_uni_freq(corpus, vocab, 1) as int,
        ) == spec_uni_freq(corpus, vocab, 1) + k,
{
    crate::utils::lemma_occurrence_count_absent(spec_tokens(corpus), w);
    let d = spec_unigram_denominator(corpus, vocab, 0);
    assert(d == spec_tokens(corpus).len() + 0 * (spec_unigram_dom(corpus, vocab).len() as int));
    assert(0 * (spec_unigram_dom(corpus, vocab).len() as int) == 0) by (nonlinear_arith);
    if d == 0 {
        assert(1 * d == 0) by (nonlinear_arith)
            requires
                d == 0,
        ;
    } else {
        assert(1 * d == d) by (nonlinear_arith);
        assert(crate::probability::round_hundredths(0, d) == 0) by {
            vstd::arithmetic::div_mod::lemma_basic_div(d, 2 * d);
        }
    }
}

/// A corpus pair's first word is itself a corpus token.
proof fn lemma_pair_first_in_tokens(corpus: Seq<Seq<char>>, p: (Seq<char>, Seq<char>))
    requires
        spec_bigram_tokens(corpus).contains(p),
    ensures
        spec_tokens(corpus).contains(p.0),
{
    let wl = spec_word_lists(corpus);
    let pls = wl.map_values(|ws: Seq<Seq<char>>| spec_line_pairs(ws));
    lemma_flatten_contains(pls, p);
    let i = choose|i: int| 0 <= i < pls.len() && (#[trigger] pls[i]).contains(p);
    let j = choose|j: int| 0 <= j < pls[i].len() && #[trigger] pls[i][j] == p;
    assert(pls[i] == spec_line_pairs(wl[i]));
    assert(wl[i][j] == p.0);
    assert(wl[i].contains(p.0));
    lemma_flatten_contains(wl, p.0);
}

/// Unigram probability estimation.
///
/// Returns one entry per distinct gram (corpus token or vocabulary word)
/// with its probability rounded to two decimal places, represented exactly
/// as an integer number of hundredths.
pub fn unigrams(corpus: &Vec<String>, vocabulary: &Vec<String>, options: Options) -> (r: Vec<
    (String, u64),
>)
    requires
        spec_char_count(view_seq(corpus@)) + vocabulary@.len() <= u32::MAX,
    ensures
        entry_keys(r@).no_duplicates(),
        entry_keys(r@).to_set() == spec_unigram_dom(view_seq(corpus@), view_seq(vocabulary@)),
        forall|i: int|
            0 <= i < r@.len() ==> (#[trigger] r@[i]).1 as int == spec_unigram_probability(
                view_seq(corpus@),
                view_seq(vocabulary@),
                options.spec_add_k() as int,
                options.spec_good_turing(),
                entry_keys(r@)[i],
            ),
{
    let ghost cv = view_seq(corpus@);
    let ghost vv = view_seq(vocabulary@);
    let ghost toks = spec_tokens(cv);
    let k = options.add_k_smoothing;
    let gt = options.good_turing;

    let word_lists = lines_to_word_lists(corpus);
    proof {
        assert(nested_views(word_lists@) =~= spec_word_lists(cv)) by {
            assert forall|i: int| 0 <= i < word_lists@.len() implies nested_views(word_lists@)[i]
                == spec_word_lists(cv)[i] by {
                assert(view_seq(word_lists@[i]@) == spec_split(corpus@[i]@));
                assert(cv[i] == corpus@[i]@);
            }
        }
        lemma_tokens_le_chars(cv);
        assert(vv.len() == vocabulary@.len());
    }
    let word_counts = count_nested(&word_lists);
    let initial_word_counts = to_hashmap_keys(vocabulary, 0);
    proof {
        assert forall|g: Seq<char>| true implies word_counts.spec_count(g)
            + initial_word_counts.spec_count(g) <= u32::MAX by {
            lemma_occurrence_count_le_len(toks, g);
            assert(word_counts.spec_count(g) == occurrence_count(toks, g));
        }
    }
    let total_counts = merge_hashmaps_with(word_counts, initial_word_counts);
    let ghost keys = total_counts.key_views();
    let ghost vals = total_counts.count_seq();
    proof {
        broadcast use group_set_axioms, seq_to_set_is_finite;

        assert forall|i: int| 0 <= i < keys.len() implies (#[trigger] vals[i]) as nat
            == occurrence_count(toks, keys[i]) by {
            lemma_count_in_at(keys, vals, keys[i], i);
            assert(total_counts.spec_count(keys[i]) == word_counts.spec_count(keys[i])
                + initial_word_counts.spec_count(keys[i]));
        }
        assert(keys.to_set() =~= spec_unigram_dom(cv, vv));
        keys.unique_seq_to_set();
        toks.lemma_cardinality_of_set();
        vv.lemma_cardinality_of_set();
        lemma_len_union(toks.to_set(), vv.to_set());
        assert(keys.len() <= u32::MAX);
        assert forall|g: Seq<char>| toks.contains(g) implies keys.contains(g) by {
            assert(total_counts.key_views().contains(g));
        }
        lemma_sum_vals_eq_sum_occurrences(keys, vals, toks);
        lemma_occurrences_mass(keys, toks);
        assert(sum_vals(vals) == toks.len());
    }
    let total_words = table_total(&total_counts);
    let v_count = total_counts.len();
    proof {
        assert((k as int) * (v_count as int) <= 0xfffffffe00000001) by (nonlinear_arith)
            requires
                0 <= k as int <= 0xffffffff,
                0 <= v_count as int <= 0xffffffff,
        ;
    }
    let kv: u64 = (k as u64) * (v_count as u64);
    let d: u64 = total_words + kv;
    proof {
        assert(d as int == spec_unigram_denominator(cv, vv, k as int));
    }
    let freq = frequency_of_frequencies(&total_counts);
    proof {
        broadcast use group_set_axioms, seq_to_set_is_finite;

        assert forall|v: u32| true implies (#[trigger] freq.spec_count(v)) as int == spec_uni_freq(
            cv,
            vv,
            v as int,
        ) by {
            lemma_occ_vals_eq_card(keys, vals, toks, v);
            assert(keys.to_set().filter(|g: Seq<char>| occurrence_count(toks, g) == v as nat)
                =~= spec_unigram_dom(cv, vv).filter(
                |w: Seq<char>| spec_unigram_count(cv, w) == v as int,
            ));
        }
        assert(spec_uni_freq(cv, vv, 0x100000000) == 0) by {
            assert forall|w: Seq<char>|
                !(spec_unigram_dom(cv, vv).contains(w) && spec_unigram_count(cv, w)
                    == 0x100000000) by {
                lemma_occurrence_count_le_len(toks, w);
            }
            assert(spec_unigram_dom(cv, vv).filter(
                |w: Seq<char>| spec_unigram_count(cv, w) == 0x100000000,
            ) =~= Set::<Seq<char>>::empty());
        }
    }
    let n_entries = total_counts.len();
    let mut result: Vec<(String, u64)> = Vec::new();
    proof {
        assert(entry_keys(result@) =~= keys.take(0));
    }
    let mut i: usize = 0;
    while i < n_entries
        invariant
            total_counts.wf(),
            freq.wf(),
            keys == total_counts.key_views(),
            vals == total_counts.count_seq(),
            n_entries == keys.len(),
            n_entries == v_count,
            cv == view_seq(corpus@),
            vv == view_seq(vocabulary@),
            toks == spec_tokens(cv),
            toks.len() <= u32::MAX,
            k == options.spec_add_k(),
            gt == options.spec_good_turing(),
            sum_vals(vals) == toks.len(),
            total_words as int == toks.len(),
            d as int == spec_unigram_denominator(cv, vv, k as int),
            d as int == total_words as int + (k as int) * (v_count as int),
            forall|j: int|
                0 <= j < keys.len() ==> (#[trigger] vals[j]) as nat == occurrence_count(
                    toks,
                    keys[j],
                ),
            keys.to_set() == spec_unigram_dom(cv, vv),
            forall|v: u32| (#[trigger] freq.spec_count(v)) as int == spec_uni_freq(cv, vv, v as int),
            forall|v: u32| #[trigger] freq.spec_count(v) == occurrence_count(vals, v),
            spec_uni_freq(cv, vv, 0x100000000) == 0,
            i <= n_entries,
            result@.len() == i,
            entry_keys(result@) == keys.take(i as int),
            forall|j: int|
                0 <= j < i ==> (#[trigger] result@[j]).1 as int == spec_unigram_probability(
                    cv,
                    vv,
                    k as int,
                    gt,
                    keys[j],
                ),
        decreases n_entries - i,
    {
        let key_ref = total_counts.key_at(i);
        let c = total_counts.count_at(i);
        proof {
            assert(c as nat == occurrence_count(toks, keys[i as int]));
            lemma_occurrence_count_le_len(toks, keys[i as int]);
        }
        let n_c = match freq.get(&c) {
            Some(x) => x,
            None => 0,
        };
        let n_one = match freq.get(&1u32) {
            Some(x) => x,
            None => 0,
        };
        let n_c1: u32 = if c == u32::MAX {
            0
        } else {
            match freq.get(&(c + 1)) {
                Some(x) => x,
                None => 0,
            }
        };
        proof {
            lemma_histogram(vals, 1u32);
            assert(1 * (occurrence_count(vals, 1u32) as int) == occurrence_count(vals, 1u32) as int)
                by (nonlinear_arith);
            if gt && c >= 1 {
                if c < u32::MAX {
                    lemma_histogram(vals, (c + 1) as u32);
                } else {
                    assert((c as int + 1) * (n_c1 as int) == 0) by (nonlinear_arith)
                        requires
                            n_c1 as int == 0,
                    ;
                }
            }
            if k >= 1 {
                assert((k as int) * 1 <= (k as int) * (v_count as int)) by (nonlinear_arith)
                    requires
                        v_count as int >= 1,
                        k as int >= 0,
                ;
            }
        }
        let p = probability_hundredths(c, k, gt, n_c, n_c1, n_one, d, Ghost(toks.len() as int));
        proof {
            let w = keys[i as int];
            let ci = c as int;
            assert(spec_unigram_count(cv, w) as int == ci);
            assert(n_c as int == spec_uni_freq(cv, vv, ci));
            assert(n_one as int == spec_uni_freq(cv, vv, 1));
            if c == u32::MAX {
                assert(n_c1 as int == spec_uni_freq(cv, vv, ci + 1));
            } else {
                assert(n_c1 as int == spec_uni_freq(cv, vv, ci + 1));
            }
            assert(p as int == spec_unigram_probability(cv, vv, k as int, gt, w));
        }
        let owned_key = key_ref.key_clone();
        let ghost prev_res = result@;
        result.push((owned_key, p));
        proof {
            assert(entry_keys(result@) =~= entry_keys(prev_res).push(keys[i as int]));
            assert(keys.take(i + 1) =~= keys.take(i as int).push(keys[i as int]));
        }
        i += 1;
    }
    proof {
        assert(keys.take(n_entries as int) =~= keys);
    }
    result
}

/// Bigram probability estimation.
///
/// Returns one entry per distinct adjacent word pair (from the corpus or
/// the vocabulary) with its probability rounded to two decimal places, as
/// an integer number of hundredths. A vocabulary pair whose first word
/// never occurs in the corpus is a fatal input error: the call reports it
/// instead of defaulting the denominator.
pub fn bigrams(corpus: &Vec<String>, vocabulary: &Vec<(String, String)>, options: Options) -> (r:
    Result<Vec<((String, String), u64)>, InputError>)
    requires
        spec_char_count(view_seq(corpus@)) + 2 * vocabulary@.len() <= u32::MAX,
    ensures
        r is Ok <==> spec_bigram_vocab_ok(view_seq(corpus@), view_seq(vocabulary@)),
        match r {
            Ok(t) => {
                &&& pair_entry_keys(t@).no_duplicates()
                &&& pair_entry_keys(t@).to_set() == spec_bigram_dom(
                    view_seq(corpus@),
                    view_seq(vocabulary@),
                )
                &&& forall|i: int|
                    0 <= i < t@.len() ==> (#[trigger] t@[i]).1 as int == spec_bigram_probability(
                        view_seq(corpus@),
                        view_seq(vocabulary@),
                        options.spec_add_k() as int,
                        options.spec_good_turing(),
                        pair_entry_keys(t@)[i],
                    )
            },
            Err(e) => {
                &&& !spec_tokens(view_seq(corpus@)).contains(e.first_word@)
                &&& exists|i: int|
                    0 <= i < vocabulary@.len() && (#[trigger] view_seq(vocabulary@)[i]).0
                        == e.first_word@
            },
        },
{
    let ghost cv = view_seq(corpus@);
    let ghost bv = view_seq(vocabulary@);
    let ghost toks = spec_tokens(cv);
    let ghost btoks = spec_bigram_tokens(cv);
    let k = options.add_k_smoothing;
    let gt = options.good_turing;

    let word_lists = lines_to_word_lists(corpus);
    proof {
        assert(nested_views(word_lists@) =~= spec_word_lists(cv)) by {
            assert forall|i: int| 0 <= i < word_lists@.len() implies nested_views(word_lists@)[i]
                == spec_word_lists(cv)[i] by {
                assert(view_seq(word_lists@[i]@) == spec_split(corpus@[i]@));
                assert(cv[i] == corpus@[i]@);
            }
        }
        lemma_tokens_le_chars(cv);
        assert(bv.len() == vocabulary@.len());
    }
    let word_counts = count_nested(&word_lists);

    // Validate the vocabulary before any estimation: fail fast on a first
    // word that the corpus never contains.
    let n_vocab = vocabulary.len();
    let mut vi: usize = 0;
    while vi < n_vocab
        invariant
            word_counts.wf(),
            n_vocab == vocabulary@.len(),
            bv == view_seq(vocabulary@),
            cv == view_seq(corpus@),
            toks == spec_tokens(cv),
            vi <= n_vocab,
            forall|g: Seq<char>|
                #[trigger] word_counts.key_views().contains(g) <==> toks.contains(g),
            forall|j: int| 0 <= j < vi ==> toks.contains((#[trigger] bv[j]).0),
        decreases n_vocab - vi,
    {
        let present = word_counts.contains_key(&vocabulary[vi].0);
        if !present {
            let missing = vocabulary[vi].0.clone();
            proof {
                assert(bv[vi as int].0 == vocabulary@[vi as int].0@);
                assert(!toks.contains(missing@));
            }
            return Err(InputError { first_word: missing });
        }
        proof {
            assert(bv[vi as int].0 == vocabulary@[vi as int].0@);
        }
        vi += 1;
    }
    proof {
        assert(spec_bigram_vocab_ok(cv, bv));
    }

    // Adjacent pairs, per line.
    let n_lines = word_lists.len();
    let mut biword_lists: Vec<Vec<(String, String)>> = Vec::new();
    let mut li: usize = 0;
    while li < n_lines
        invariant
            n_lines == word_lists@.len(),
            li <= n_lines,
            biword_lists@.len() == li,
            forall|j: int|
                0 <= j < li ==> view_seq(#[trigger] biword_lists@[j]@) == spec_line_pairs(
                    view_seq(word_lists@[j]@),
                ),
        decreases n_lines - li,
    {
        let pairs = word_pairs(&word_lists[li]);
        biword_lists.push(pairs);
        li += 1;
    }
    proof {
        assert(nested_views(biword_lists@) =~= spec_word_lists(cv).map_values(
            |ws: Seq<Seq<char>>| spec_line_pairs(ws),
        )) by {
            assert forall|j: int|
                0 <= j < biword_lists@.len() implies nested_views(biword_lists@)[j]
                == spec_word_lists(cv).map_values(|ws: Seq<Seq<char>>| spec_line_pairs(ws))[j] by {
                assert(view_seq(biword_lists@[j]@) == spec_line_pairs(view_seq(word_lists@[j]@)));
                assert(view_seq(word_lists@[j]@) == nested_views(word_lists@)[j]);
            }
        }
        lemma_flatten_len_mono(
            spec_word_lists(cv).map_values(|ws: Seq<Seq<char>>| spec_line_pairs(ws)),
            spec_word_lists(cv),
        );
        assert(btoks.len() <= toks.len());
    }
    let biword_counts = count_nested(&biword_lists);
    let initial_biword_counts = to_hashmap_keys(vocabulary, 0);
    proof {
        assert forall|g: (Seq<char>, Seq<char>)| true implies biword_counts.spec_count(g)
            + initial_biword_counts.spec_count(g) <= u32::MAX by {
            lemma_occurrence_count_le_len(btoks, g);
            assert(biword_counts.spec_count(g) == occurrence_count(btoks, g));
        }
    }
    let total_counts = merge_hashmaps_with(biword_counts, initial_biword_counts);
    let ghost keys = total_counts.key_views();
    let ghost vals = total_counts.count_seq();
    proof {
        broadcast use group_set_axioms, seq_to_set_is_finite;

        assert forall|i: int| 0 <= i < keys.len() implies (#[trigger] vals[i]) as nat
            == occurrence_count(btoks, keys[i]) by {
            lemma_count_in_at(keys, vals, keys[i], i);
            assert(total_counts.spec_count(keys[i]) == biword_counts.spec_count(keys[i])
                + initial_biword_counts.spec_count(keys[i]));
        }
        assert(keys.to_set() =~= spec_bigram_dom(cv, bv));
        keys.unique_seq_to_set();
        btoks.lemma_cardinality_of_set();
        bv.lemma_cardinality_of_set();
        lemma_len_union(btoks.to_set(), bv.to_set());
        assert(keys.len() <= u32::MAX);
        assert forall|g: (Seq<char>, Seq<char>)| btoks.contains(g) implies keys.contains(g) by {
            assert(total_counts.key_views().contains(g));
        }
        lemma_sum_vals_eq_sum_occurrences(keys, vals, btoks);
        lemma_occurrences_mass(keys, btoks);
        assert(sum_vals(vals) == btoks.len());
    }

    // Effective vocabulary size: distinct corpus words, plus vocabulary
    // words from either position that are not corpus words.
    let ghost wlist = spec_vocab_word_list(bv);
    let ghost tokset = toks.to_set();
    let mut seen = CountTable::<String>::new();
    let mut extra: usize = 0;
    proof {
        assert(wlist.len() == 2 * n_vocab);
        assert forall|g: Seq<char>| true implies (#[trigger] seen.key_views().contains(g) <==> (
        wlist.take(0).contains(g) && !toks.contains(g))) by {
            assert(!wlist.take(0).contains(g));
        }
    }
    let mut vi2: usize = 0;
    while vi2 < n_vocab
        invariant
            word_counts.wf(),
            seen.wf(),
            n_vocab == vocabulary@.len(),
            bv == view_seq(vocabulary@),
            toks == spec_tokens(cv),
            cv == view_seq(corpus@),
            wlist == spec_vocab_word_list(bv),
            wlist.len() == 2 * n_vocab,
            vi2 <= n_vocab,
            2 * n_vocab <= u32::MAX,
            extra == seen.key_views().len(),
            extra <= vi2,
            forall|g: Seq<char>|
                #[trigger] word_counts.key_views().contains(g) <==> toks.contains(g),
            forall|g: Seq<char>|
                #[trigger] seen.key_views().contains(g) <==> (wlist.take(vi2 as int).contains(g)
                    && !toks.contains(g)),
        decreases n_vocab - vi2,
    {
        let w = &vocabulary[vi2].0;
        proof {
            assert(wlist[vi2 as int] == bv[vi2 as int].0);
            assert(w@ == bv[vi2 as int].0);
            assert(wlist.take(vi2 + 1) =~= wlist.take(vi2 as int).push(w@));
        }
        let in_corpus = word_counts.contains_key(w);
        let already = seen.contains_key(w);
        let ghost prev = seen;
        if !in_corpus && !already {
            seen.set(w, 0);
            extra += 1;
        }
        proof {
            assert forall|g: Seq<char>| true implies (#[trigger] seen.key_views().contains(g) <==> (
            wlist.take(vi2 + 1).contains(g) && !toks.contains(g))) by {
                assert(prev.key_views().contains(g) <==> (wlist.take(vi2 as int).contains(g)
                    && !toks.contains(g)));
                if g == w@ {
                    assert(wlist.take(vi2 + 1)[vi2 as int] == g);
                    if !in_corpus && !already && !prev.key_views().contains(g) {
                        assert(seen.key_views() == prev.key_views().push(g));
                        assert(seen.key_views()[prev.key_views().len() as int] == g);
                    }
                } else {
                    if wlist.take(vi2 + 1).contains(g) {
                        let j = choose|j: int|
                            0 <= j < vi2 + 1 && #[trigger] wlist.take(vi2 + 1)[j] == g;
                        assert(wlist.take(vi2 as int)[j] == g);
                    }
                    if wlist.take(vi2 as int).contains(g) {
                        let j = choose|j: int|
                            0 <= j < vi2 && #[trigger] wlist.take(vi2 as int)[j] == g;
                        assert(wlist.take(vi2 + 1)[j] == g);
                    }
                    if !in_corpus && !already {
                        assert(seen.key_views() == prev.key_views().push(w@));
                        if prev.key_views().contains(g) {
                            let j = choose|j: int|
                                0 <= j < prev.key_views().len() && #[trigger] prev.key_views()[j]
                                    == g;
                            assert(seen.key_views()[j] == g);
                        }
                        if seen.key_views().contains(g) {
                            let j = choose|j: int|
                                0 <= j < seen.key_views().len() && #[trigger] seen.key_views()[j]
                                    == g;
                            if j < prev.key_views().len() {
                                assert(prev.key_views()[j] == g);
                            }
                        }
                    }
                }
            }
        }
        vi2 += 1;
    }
    let mut vi3: usize = 0;
    while vi3 < n_vocab
        invariant
            word_counts.wf(),
            seen.wf(),
            n_vocab == vocabulary@.len(),
            bv == view_seq(vocabulary@),
            toks == spec_tokens(cv),
            cv == view_seq(corpus@),
            wlist == spec_vocab_word_list(bv),
            wlist.len() == 2 * n_vocab,
            vi3 <= n_vocab,
            2 * n_vocab <= u32::MAX,
            extra == seen.key_views().len(),
            extra <= n_vocab + vi3,
            forall|g: Seq<char>|
                #[trigger] word_counts.key_views().contains(g) <==> toks.contains(g),
            forall|g: Seq<char>|
                #[trigger] seen.key_views().contains(g) <==> (wlist.take(
                    n_vocab + vi3 as int,
                ).contains(g) && !toks.contains(g)),
        decreases n_vocab - vi3,
    {
        let w = &vocabulary[vi3].1;
        proof {
            assert(wlist[n_vocab + vi3 as int] == bv[vi3 as int].1);
            assert(w@ == bv[vi3 as int].1);
            assert(wlist.take(n_vocab + vi3 + 1) =~= wlist.take(n_vocab + vi3 as int).push(w@));
        }
        let in_corpus = word_counts.contains_key(w);
        let already = seen.contains_key(w);
        let ghost prev = seen;
        if !in_corpus && !already {
            seen.set(w, 0);
            extra += 1;
        }
        proof {
            assert forall|g: Seq<char>| true implies (#[trigger] seen.key_views().contains(g) <==> (
            wlist.take(n_vocab + vi3 + 1).contains(g) && !toks.contains(g))) by {
                assert(prev.key_views().contains(g) <==> (wlist.take(
                    n_vocab + vi3 as int,
                ).contains(g) && !toks.contains(g)));
                if g == w@ {
                    assert(wlist.take(n_vocab + vi3 + 1)[n_vocab + vi3 as int] == g);
                    if !in_corpus && !already && !prev.key_views().contains(g) {
                        assert(seen.key_views() == prev.key_views().push(g));
                        assert(seen.key_views()[prev.key_views().len() as int] == g);
                    }
                } else {
                    if wlist.take(n_vocab + vi3 + 1).contains(g) {
                        let j = choose|j: int|
                            0 <= j < n_vocab + vi3 + 1 && #[trigger] wlist.take(
                                n_vocab + vi3 + 1,
                            )[j] == g;
                        assert(wlist.take(n_vocab + vi3 as int)[j] == g);
                    }
                    if wlist.take(n_vocab + vi3 as int).contains(g) {
                        let j = choose|j: int|
                            0 <= j < n_vocab + vi3 && #[trigger] wlist.take(
                                n_vocab + vi3 as int,
                            )[j] == g;
                        assert(wlist.take(n_vocab + vi3 + 1)[j] == g);
                    }
                    if !in_corpus && !already {
                        assert(seen.key_views() == prev.key_views().push(w@));
                        if prev.key_views().contains(g) {
                            let j = choose|j: int|
                                0 <= j < prev.key_views().len() && #[trigger] prev.key_views()[j]
                                    == g;
                            assert(seen.key_views()[j] == g);
                        }
                        if seen.key_views().contains(g) {
                            let j = choose|j: int|
                                0 <= j < seen.key_views().len() && #[trigger] seen.key_views()[j]
                                    == g;
                            if j < prev.key_views().len() {
                                assert(prev.key_views()[j] == g);
                            }
                        }
                    }
                }
            }
        }
        vi3 += 1;
    }
    let base = word_counts.len();
    proof {
        broadcast use group_set_axioms, seq_to_set_is_finite;

        assert(wlist.take(2 * n_vocab as int) =~= wlist);
        seen.key_views().unique_seq_to_set();
        assert(seen.key_views().to_set() =~= wlist.to_set().difference(tokset));
        word_counts.key_views().unique_seq_to_set();
        assert(word_counts.key_views().to_set() =~= tokset);
        toks.lemma_cardinality_of_set();
        assert(base + extra == spec_effective_vocab_size(cv, bv));
        assert(base + extra <= u32::MAX);
    }
    let v_eff: u64 = base as u64 + extra as u64;
    proof {
        assert((k as int) * (v_eff as int) <= 0xfffffffe00000001) by (nonlinear_arith)
            requires
                0 <= k as int <= 0xffffffff,
                0 <= v_eff as int <= 0xffffffff,
        ;
    }
    let kv: u64 = (k as u64) * v_eff;

    let freq = frequency_of_frequencies(&total_counts);
    proof {
        broadcast use group_set_axioms, seq_to_set_is_finite;

        assert forall|v: u32| true implies (#[trigger] freq.spec_count(v)) as int == spec_bi_freq(
            cv,
            bv,
            v as int,
        ) by {
            lemma_occ_vals_eq_card(keys, vals, btoks, v);
            assert(keys.to_set().filter(
                |g: (Seq<char>, Seq<char>)| occurrence_count(btoks, g) == v as nat,
            ) =~= spec_bigram_dom(cv, bv).filter(
                |p: (Seq<char>, Seq<char>)| spec_bigram_count(cv, p) == v as int,
            ));
        }
        assert(spec_bi_freq(cv, bv, 0x100000000) == 0) by {
            assert forall|p: (Seq<char>, Seq<char>)|
                !(spec_bigram_dom(cv, bv).contains(p) && spec_bigram_count(cv, p)
                    == 0x100000000) by {
                lemma_occurrence_count_le_len(btoks, p);
            }
            assert(spec_bigram_dom(cv, bv).filter(
                |p: (Seq<char>, Seq<char>)| spec_bigram_count(cv, p) == 0x100000000,
            ) =~= Set::<(Seq<char>, Seq<char>)>::empty());
        }
    }

    let n_entries = total_counts.len();
    let mut result: Vec<((String, String), u64)> = Vec::new();
    proof {
        assert(pair_entry_keys(result@) =~= keys.take(0));
    }
    let mut i: usize = 0;
    while i < n_entries
        invariant
            total_counts.wf(),
            word_counts.wf(),
            freq.wf(),
            keys == total_counts.key_views(),
            vals == total_counts.count_seq(),
            n_entries == keys.len(),
            cv == view_seq(corpus@),
            bv == view_seq(vocabulary@),
            toks == spec_tokens(cv),
            btoks == spec_bigram_tokens(cv),
            tokset == toks.to_set(),
            btoks.len() <= u32::MAX,
            k == options.spec_add_k(),
            gt == options.spec_good_turing(),
            spec_bigram_vocab_ok(cv, bv),
            sum_vals(vals) == btoks.len(),
            v_eff as int == spec_effective_vocab_size(cv, bv),
            v_eff as int <= 0xffffffff,
            kv as int == (k as int) * (v_eff as int),
            kv as int <= 0xfffffffe00000001,
            forall|g: Seq<char>|
                #[trigger] word_counts.key_views().contains(g) <==> toks.contains(g),
            forall|g: Seq<char>|
                #[trigger] word_counts.spec_count(g) as nat == occurrence_count(toks, g),
            forall|j: int|
                0 <= j < keys.len() ==> (#[trigger] vals[j]) as nat == occurrence_count(
                    btoks,
                    keys[j],
                ),
            keys.to_set() == spec_bigram_dom(cv, bv),
            forall|v: u32| (#[trigger] freq.spec_count(v)) as int == spec_bi_freq(cv, bv, v as int),
            forall|v: u32| #[trigger] freq.spec_count(v) == occurrence_count(vals, v),
            spec_bi_freq(cv, bv, 0x100000000) == 0,
            i <= n_entries,
            result@.len() == i,
            pair_entry_keys(result@) == keys.take(i as int),
            forall|j: int|
                0 <= j < i ==> (#[trigger] result@[j]).1 as int == spec_bigram_probability(
                    cv,
                    bv,
                    k as int,
                    gt,
                    keys[j],
                ),
        decreases n_entries - i,
    {
        let key_ref = total_counts.key_at(i);
        let c = total_counts.count_at(i);
        proof {
            broadcast use group_set_axioms, seq_to_set_is_finite;

            assert(c as nat == occurrence_count(btoks, keys[i as int]));
            lemma_occurrence_count_le_len(btoks, keys[i as int]);
            // The pair's first word is a corpus token: either the pair was
            // observed in the corpus, or the vocabulary was validated.
            assert(keys.contains(keys[i as int]));
            assert(keys.to_set().contains(keys[i as int]));
            if btoks.to_set().contains(keys[i as int]) {
                lemma_pair_first_in_tokens(cv, keys[i as int]);
            } else {
                let vidx = choose|vidx: int| 0 <= vidx < bv.len() && #[trigger] bv[vidx] == keys[i as int];
                assert(toks.contains(bv[vidx].0));
            }
            assert(toks.contains(keys[i as int].0));
            assert(tokset.contains(keys[i as int].0));
            assert(tokset.remove(keys[i as int].0).len() == tokset.len() - 1);
            assert(spec_effective_vocab_size(cv, bv) >= 1);
        }
        let first_count = match word_counts.get(&key_ref.0) {
            Some(x) => x,
            None => 0,
        };
        let d: u64 = first_count as u64 + kv;
        let n_c = match freq.get(&c) {
            Some(x) => x,
            None => 0,
        };
        let n_one = match freq.get(&1u32) {
            Some(x) => x,
            None => 0,
        };
        let n_c1: u32 = if c == u32::MAX {
            0
        } else {
            match freq.get(&(c + 1)) {
                Some(x) => x,
                None => 0,
            }
        };
        proof {
            lemma_histogram(vals, 1u32);
            assert(1 * (occurrence_count(vals, 1u32) as int) == occurrence_count(vals, 1u32) as int)
                by (nonlinear_arith);
            if gt && c >= 1 {
                if c < u32::MAX {
                    lemma_histogram(vals, (c + 1) as u32);
                } else {
                    assert((c as int + 1) * (n_c1 as int) == 0) by (nonlinear_arith)
                        requires
                            n_c1 as int == 0,
                    ;
                }
            }
            if k >= 1 {
                assert((k as int) * 1 <= (k as int) * (v_eff as int)) by (nonlinear_arith)
                    requires
                        v_eff as int >= 1,
                        k as int >= 0,
                ;
            }
        }
        let p = probability_hundredths(c, k, gt, n_c, n_c1, n_one, d, Ghost(btoks.len() as int));
        proof {
            let w = keys[i as int];
            let ci = c as int;
            assert(spec_bigram_count(cv, w) as int == ci);
            assert(first_count as int == spec_unigram_count(cv, w.0));
            assert(d as int == spec_bigram_denominator(cv, bv, k as int, w));
            assert(n_c as int == spec_bi_freq(cv, bv, ci));
            assert(n_one as int == spec_bi_freq(cv, bv, 1));
            assert(n_c1 as int == spec_bi_freq(cv, bv, ci + 1));
            assert(p as int == spec_bigram_probability(cv, bv, k as int, gt, w));
        }
        let owned_key = key_ref.key_clone();
        let ghost prev_res = result@;
        result.push((owned_key, p));
        proof {
            assert(pair_entry_keys(result@) =~= pair_entry_keys(prev_res).push(keys[i as int]));
            assert(keys.take(i + 1) =~= keys.take(i as int).push(keys[i as int]));
        }
        i += 1;
    }
    proof {
        assert(keys.take(n_entries as int) =~= keys);
    }
    Ok(result)
}

} // verus!
