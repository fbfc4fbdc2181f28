//! Whitespace tokenization of corpus lines.
use vstd::prelude::*;

use crate::table::view_seq;
use vstd::string::StrSliceExecFns;

verus! {

/// Whether a character counts as whitespace for tokenization.
pub uninterp spec fn is_space_char(c: char) -> bool;

/// Relies on char::is_whitespace: tells whether the character has the
/// Unicode `White_Space` property, a function of the character alone.
pub assume_specification[ char::is_whitespace ](c: char) -> (b: bool)
    ensures
        b == is_space_char(c),
;

/// Length of the maximal non-whitespace prefix of `s`.
pub open spec fn spec_word_len(s: Seq<char>) -> nat
    decreases s.len(),
{
    if s.len() == 0 || is_space_char(s[0]) {
        0
    } else {
        (1 + spec_word_len(s.drop_first())) as nat
    }
}

pub proof fn lemma_word_len_le(s: Seq<char>)
    ensures
        spec_word_len(s) <= s.len(),
    decreases s.len(),
{
    if s.len() != 0 && !is_space_char(s[0]) {
        lemma_word_len_le(s.drop_first());
    }
}

/// The whitespace-delimited words of `s`, in order: maximal runs of
/// non-whitespace characters.
pub open spec fn spec_split(s: Seq<char>) -> Seq<Seq<char>>
    decreases s.len(),
    via spec_split_decreases
{
    if s.len() == 0 {
        Seq::empty()
    } else if is_space_char(s[0]) {
        spec_split(s.drop_first())
    } else {
        seq![s.take(spec_word_len(s) as int)] + spec_split(s.skip(spec_word_len(s) as int))
    }
}

#[via_fn]
proof fn spec_split_decreases(s: Seq<char>) {
    if s.len() != 0 && !is_space_char(s[0]) {
        lemma_word_len_le(s);
        assert(spec_word_len(s) >= 1);
    }
}

/// The maximal non-whitespace prefix has length `m` exactly when the first
/// `m` characters are non-whitespace and the run stops at `m`.
pub proof fn lemma_word_len_is(s: Seq<char>, m: int)
    requires
        0 <= m <= s.len(),
        forall|j: int| 0 <= j < m ==> !is_space_char(s[j]),
        m == s.len() || is_space_char(s[m]),
    ensures
        spec_word_len(s) == m,
    decreases m,
{
    if m == 0 {
    } else {
        assert(!is_space_char(s[0]));
        let t = s.drop_first();
        assert forall|j: int| 0 <= j < m - 1 implies !is_space_char(t[j]) by {
            assert(t[j] == s[j + 1]);
        }
        if m < s.len() {
            assert(t[m - 1] == s[m]);
        }
        lemma_word_len_is(t, m - 1);
    }
}

/// Skipping a leading whitespace character does not change the word list.
pub proof fn lemma_split_skip_space(s: Seq<char>, i: int)
    requires
        0 <= i < s.len(),
        is_space_char(s[i]),
    ensures
        spec_split(s.skip(i)) == spec_split(s.skip(i + 1)),
{
    assert(s.skip(i)[0] == s[i]);
    assert(s.skip(i).drop_first() =~= s.skip(i + 1));
}

/// A maximal non-whitespace run `[start, end)` is the first word of the
/// suffix starting at `start`.
pub proof fn lemma_split_word(s: Seq<char>, start: int, end: int)
    requires
        0 <= start < end <= s.len(),
        forall|j: int| start <= j < end ==> !is_space_char(s[j]),
        end == s.len() || is_space_char(s[end]),
    ensures
        spec_split(s.skip(start)) == seq![s.subrange(start, end)] + spec_split(s.skip(end)),
{
    let t = s.skip(start);
    assert(t[0] == s[start]);
    assert forall|j: int| 0 <= j < end - start implies !is_space_char(t[j]) by {
        assert(t[j] == s[start + j]);
    }
    if end - start < t.len() {
        assert(t[end - start] == s[end]);
    }
    lemma_word_len_is(t, end - start);
    assert(t.take(end - start) =~= s.subrange(start, end));
    assert(t.skip(end - start) =~= s.skip(end));
}

/// A line has no more words than characters.
pub proof fn lemma_split_count_le_len(s: Seq<char>)
    ensures
        spec_split(s).len() <= s.len(),
    decreases s.len(),
{
    if s.len() == 0 {
    } else if is_space_char(s[0]) {
        lemma_split_count_le_len(s.drop_first());
    } else {
        lemma_word_len_le(s);
        lemma_split_count_le_len(s.skip(spec_word_len(s) as int));
    }
}

/// The adjacent word pairs of one word list: a sliding window of size two,
/// with no wraparound and no pairs across list boundaries.
pub open spec fn spec_line_pairs(words: Seq<Seq<char>>) -> Seq<(Seq<char>, Seq<char>)> {
    if words.len() < 1 {
        Seq::empty()
    } else {
        Seq::new((words.len() - 1) as nat, |i: int| (words[i], words[i + 1]))
    }
}

/// The word lists of a corpus, one per line.
pub open spec fn spec_word_lists(corpus: Seq<Seq<char>>) -> Seq<Seq<Seq<char>>> {
    corpus.map_values(|line: Seq<char>| spec_split(line))
}

/// All tokens of a corpus, line by line and in order.
pub open spec fn spec_tokens(corpus: Seq<Seq<char>>) -> Seq<Seq<char>> {
    spec_word_lists(corpus).flatten()
}

/// Total number of characters over all corpus lines.
pub open spec fn spec_char_count(corpus: Seq<Seq<char>>) -> int
    decreases corpus.len(),
{
    if corpus.len() == 0 {
        0
    } else {
        spec_char_count(corpus.drop_last()) + corpus.last().len()
    }
}

/// A corpus has no more tokens than characters.
pub proof fn lemma_tokens_le_chars(corpus: Seq<Seq<char>>)
    ensures
        0 <= spec_tokens(corpus).len() <= spec_char_count(corpus),
    decreases corpus.len(),
{
    let wl = spec_word_lists(corpus);
    wl.lemma_flatten_and_flatten_alt_are_equivalent();
    if corpus.len() == 0 {
        assert(wl =~= Seq::<Seq<Seq<char>>>::empty());
    } else {
        lemma_tokens_le_chars(corpus.drop_last());
        assert(spec_word_lists(corpus.drop_last()) =~= wl.drop_last());
        wl.drop_last().lemma_flatten_and_flatten_alt_are_equivalent();
        assert(wl.flatten_alt() == wl.drop_last().flatten_alt() + wl.last());
        assert(wl.last() == spec_split(corpus.last()));
        lemma_split_count_le_len(corpus.last());
    }
}

/// Splits one line into its whitespace-delimited words.
pub fn split_line(line: &str) -> (words: Vec<String>)
    ensures
        view_seq(words@) == spec_split(line@),
{
    let n = line.unicode_len();
    let mut words: Vec<String> = Vec::new();
    proof {
        assert(line@.skip(0) =~= line@);
        assert(view_seq(words@) =~= Seq::<Seq<char>>::empty());
    }
    let mut i: usize = 0;
    while i < n
        invariant
            n == line@.len(),
            i <= n,
            spec_split(line@) == view_seq(words@) + spec_split(line@.skip(i as int)),
        decreases n - i,
    {
        let c = line.get_char(i);
        if c.is_whitespace() {
            proof {
                lemma_split_skip_space(line@, i as int);
            }
            i += 1;
        } else {
            let start = i;
            i += 1;
            while i < n && !(line.get_char(i).is_whitespace())
                invariant
                    n == line@.len(),
                    start < i <= n,
                    forall|j: int| start <= j < i ==> !is_space_char(line@[j]),
                decreases n - i,
            {
                i += 1;
            }
            let w = line.substring_char(start, i);
            let owned = w.to_owned();
            let ghost prev = words@;
            words.push(owned);
            proof {
                lemma_split_word(line@, start as int, i as int);
                assert(view_seq(words@) =~= view_seq(prev).push(line@.subrange(
                    start as int,
                    i as int,
                )));
                assert(view_seq(prev) + (seq![line@.subrange(start as int, i as int)] + spec_split(
                    line@.skip(i as int),
                )) =~= view_seq(words@) + spec_split(line@.skip(i as int)));
            }
        }
    }
    proof {
        assert(line@.skip(n as int) =~= Seq::<char>::empty());
        assert(spec_split(line@.skip(n as int)) =~= Seq::<Seq<char>>::empty());
        assert(view_seq(words@) + spec_split(line@.skip(n as int)) =~= view_seq(words@));
    }
    words
}

} // verus!
