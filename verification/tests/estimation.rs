use std::collections::HashMap;

use n_gram::{bigrams, unigrams, Options};

fn to_vec_of_string(list: Vec<&str>) -> Vec<String> {
    list.iter().map(|s| s.to_string()).collect()
}

fn get_test_corpus_1() -> Vec<String> {
    let corpus: Vec<&str> = vec![
        "chicago is",
        "chicago is",
        "is cold",
        "is cold",
        "is cold",
        "is cold",
        "chicago",
        "chicago",
        "is",
        "is",
        "cold",
        "cold",
    ];

    to_vec_of_string(corpus)
}

fn get_test_corpus_2_species() -> Vec<String> {
    let corpus: Vec<&str> = vec![
        "carp", "carp", "carp", "carp", "carp", "carp", "carp", "carp", "carp", "carp", "perch",
        "perch", "perch", "whitefish", "whitefish", "trout", "salmon", "eel",
    ];

    to_vec_of_string(corpus)
}

fn unigram_map(entries: Vec<(String, u64)>) -> HashMap<String, f32> {
    entries
        .into_iter()
        .map(|(w, p)| (w, p as f32 / 100.0))
        .collect()
}

fn bigram_map(entries: Vec<((String, String), u64)>) -> HashMap<(String, String), f32> {
    entries
        .into_iter()
        .map(|(w, p)| (w, p as f32 / 100.0))
        .collect()
}

#[test]
fn test_unigrams() {
    let corpus: Vec<String> = get_test_corpus_1();

    let vocabulary = vec!["hot".to_string()];

    let mut expected_unigrams: HashMap<String, f32> = HashMap::new();
    expected_unigrams.insert("chicago".to_string(), 0.22);
    expected_unigrams.insert("is".to_string(), 0.44);
    expected_unigrams.insert("cold".to_string(), 0.33);
    expected_unigrams.insert("hot".to_string(), 0.00);

    let actual_unigrams = unigram_map(unigrams(&corpus, &vocabulary, Options::new()));

    assert_eq!(expected_unigrams, actual_unigrams);
}

#[test]
fn test_unigrams_with_laplace_smoothing() {
    let corpus: Vec<String> = get_test_corpus_1();

    let vocabulary = vec!["hot".to_string()];

    let mut expected_unigrams: HashMap<String, f32> = HashMap::new();
    expected_unigrams.insert("chicago".to_string(), 0.23);
    expected_unigrams.insert("is".to_string(), 0.41);
    expected_unigrams.insert("cold".to_string(), 0.32);
    expected_unigrams.insert("hot".to_string(), 0.05);

    let actual_unigrams = unigram_map(unigrams(
        &corpus,
        &vocabulary,
        Options::new().with_add_k_smoothing(1),
    ));

    assert_eq!(expected_unigrams, actual_unigrams);
}

#[test]
fn test_unigrams_with_good_turing() {
    let corpus: Vec<String> = get_test_corpus_2_species();

    let vocabulary = to_vec_of_string(vec!["catfish", "bass"]);

    let actual = unigram_map(unigrams(
        &corpus,
        &vocabulary,
        Options::new().with_good_turing(true),
    ));

    assert_eq!(0.04, actual["trout"]);
    assert_eq!(0.17, actual["bass"]);
}

#[test]
fn test_bigrams() {
    let corpus: Vec<String> = get_test_corpus_1();

    let vocabulary = vec![("is".to_string(), "hot".to_string())];

    let mut expected_bigrams: HashMap<(String, String), f32> = HashMap::new();
    expected_bigrams.insert(("chicago".to_string(), "is".to_string()), 0.50);
    expected_bigrams.insert(("is".to_string(), "cold".to_string()), 0.50);
    expected_bigrams.insert(("is".to_string(), "hot".to_string()), 0.00);

    let actual_bigrams = bigram_map(bigrams(&corpus, &vocabulary, Options::new()).unwrap());

    assert_eq!(expected_bigrams, actual_bigrams);
}

#[test]
fn test_bigrams_with_laplace_smoothing() {
    let corpus: Vec<String> = get_test_corpus_1();

    let vocabulary = vec![("is".to_string(), "hot".to_string())];

    let mut expected_bigrams: HashMap<(String, String), f32> = HashMap::new();
    expected_bigrams.insert(("chicago".to_string(), "is".to_string()), 0.38);
    expected_bigrams.insert(("is".to_string(), "cold".to_string()), 0.42);
    expected_bigrams.insert(("is".to_string(), "hot".to_string()), 0.08);

    let actual_bigrams = bigram_map(
        bigrams(&corpus, &vocabulary, Options::new().with_add_k_smoothing(1)).unwrap(),
    );

    assert_eq!(expected_bigrams, actual_bigrams);
}

#[test]
fn uni_grams() {
    let corpus = to_vec_of_string(vec![
        "chicago is cold",
        "chicago is cold",
        "is cold",
        "is cold",
        "is cold",
        "is cold",
        "chicago is",
        "chicago is",
    ]);

    let mut expected_unigrams: HashMap<String, f32> = HashMap::new();
    expected_unigrams.insert("chicago".to_string(), 0.22);
    expected_unigrams.insert("is".to_string(), 0.44);
    expected_unigrams.insert("cold".to_string(), 0.33);
    expected_unigrams.insert("hot".to_string(), 0.00);

    let actual_unigrams = unigram_map(unigrams(
        &corpus,
        &vec!["hot".to_string()],
        Options::new(),
    ));

    assert_eq!(expected_unigrams, actual_unigrams);
}

#[test]
fn test_unsmoothed_unigram_mass_is_one_within_rounding() {
    let corpus = get_test_corpus_1();

    let table = unigrams(&corpus, &Vec::new(), Options::new());
    let total: u64 = table.iter().map(|(_, p)| *p).sum();

    // 0.22 + 0.44 + 0.33 sums to 0.99: off by at most one hundredth per key.
    assert!(97 <= total && total <= 103, "total mass was {}", total);
}

#[test]
fn test_vocabulary_word_absent_from_corpus() {
    let corpus = get_test_corpus_1();
    let vocabulary = vec!["hot".to_string()];

    let unsmoothed = unigram_map(unigrams(&corpus, &vocabulary, Options::new()));
    assert_eq!(0.00, unsmoothed["hot"]);

    let add_one = unigram_map(unigrams(
        &corpus,
        &vocabulary,
        Options::new().with_add_k_smoothing(1),
    ));
    assert!(add_one["hot"] > 0.0);

    // Good-Turing reestimates a zero count as N(1); no word occurs exactly
    // once in this corpus, so the value is 0 here.
    let good_turing = unigram_map(unigrams(
        &corpus,
        &vocabulary,
        Options::new().with_good_turing(true),
    ));
    assert_eq!(0.00, good_turing["hot"]);
}

#[test]
fn test_vocabulary_word_present_keeps_corpus_count() {
    let corpus = get_test_corpus_1();
    let vocabulary = to_vec_of_string(vec!["is", "hot"]);

    let actual = unigram_map(unigrams(&corpus, &vocabulary, Options::new()));

    assert_eq!(0.44, actual["is"]);
    assert_eq!(0.00, actual["hot"]);
    assert_eq!(4, actual.len());
}

#[test]
fn test_empty_corpus_with_no_vocabulary() {
    let actual = unigrams(&Vec::new(), &Vec::new(), Options::new());

    assert!(actual.is_empty());
}

#[test]
fn test_empty_corpus_with_vocabulary_and_smoothing() {
    let vocabulary = to_vec_of_string(vec!["hot", "cold"]);

    let actual = unigram_map(unigrams(
        &Vec::new(),
        &vocabulary,
        Options::new().with_add_k_smoothing(1),
    ));

    // Each of the two vocabulary words gets 1 / (0 + 1 * 2) = 0.50.
    assert_eq!(0.50, actual["hot"]);
    assert_eq!(0.50, actual["cold"]);
}

#[test]
fn test_empty_corpus_with_vocabulary_and_no_smoothing() {
    let vocabulary = vec!["hot".to_string()];

    // With no tokens and no smoothing there is no probability mass at all;
    // the vocabulary entry is reported with probability 0.
    let actual = unigram_map(unigrams(&Vec::new(), &vocabulary, Options::new()));

    assert_eq!(1, actual.len());
    assert_eq!(0.00, actual["hot"]);
}

#[test]
fn test_bigrams_with_good_turing() {
    let corpus = to_vec_of_string(vec!["a b", "a b", "c d"]);

    let actual = bigram_map(
        bigrams(&corpus, &Vec::new(), Options::new().with_good_turing(true)).unwrap(),
    );

    // (c,d) occurs once: its count is reestimated to 2 * N(2) / N(1) = 2,
    // and the denominator is the count of "c", which is 1.
    assert_eq!(2.00, actual[&("c".to_string(), "d".to_string())]);
    // (a,b) occurs twice: 3 * N(3) / N(2) = 0.
    assert_eq!(0.00, actual[&("a".to_string(), "b".to_string())]);
}

#[test]
fn test_bigram_vocabulary_first_word_missing_is_fatal() {
    let corpus = get_test_corpus_1();
    let vocabulary = vec![("zzz".to_string(), "is".to_string())];

    let result = bigrams(&corpus, &vocabulary, Options::new());

    let error = result.unwrap_err();
    assert_eq!("zzz", error.first_word);
}

#[test]
fn test_options_builder_chaining() {
    let corpus = to_vec_of_string(vec!["x y"]);

    // Both smoothings off by default; builders set them independently.
    let plain = unigram_map(unigrams(&corpus, &Vec::new(), Options::new()));
    assert_eq!(0.50, plain["x"]);

    let defaulted = unigram_map(unigrams(&corpus, &Vec::new(), Options::default()));
    assert_eq!(plain, defaulted);

    let chained = Options::new().with_add_k_smoothing(2).with_good_turing(false);
    let smoothed = unigram_map(unigrams(&corpus, &Vec::new(), chained));
    // (1 + 2) / (2 + 2 * 2) = 0.50
    assert_eq!(0.50, smoothed["x"]);
}
