use n_gram::table::CountTable;
use n_gram::utils::{count_all, lines_to_word_lists, merge_hashmaps_with, to_hashmap_keys, word_pairs};

fn words_of(list: Vec<&str>) -> Vec<String> {
    list.iter().map(|s| s.to_string()).collect()
}

#[test]
fn test_lines_to_word_lists() {
    let lines = words_of(vec!["chicago is cold", "africa is hot"]);

    let expected = vec![
        words_of(vec!["chicago", "is", "cold"]),
        words_of(vec!["africa", "is", "hot"]),
    ];
    let actual = lines_to_word_lists(&lines);

    assert_eq!(actual, expected);
}

#[test]
fn test_lines_with_extra_whitespace() {
    let lines = words_of(vec!["  chicago\tis  cold ", "", "   ", "africa"]);

    let expected = vec![
        words_of(vec!["chicago", "is", "cold"]),
        Vec::<String>::new(),
        Vec::<String>::new(),
        words_of(vec!["africa"]),
    ];
    let actual = lines_to_word_lists(&lines);

    assert_eq!(actual, expected);
}

#[test]
fn test_count_words() {
    let word_list = words_of(vec!["chicago", "is", "cold", "africa", "is", "hot"]);

    let actual_counts = count_all(&word_list);

    assert_eq!(actual_counts.len(), 5);
    assert_eq!(actual_counts.get(&"chicago".to_string()), Some(1));
    assert_eq!(actual_counts.get(&"is".to_string()), Some(2));
    assert_eq!(actual_counts.get(&"cold".to_string()), Some(1));
    assert_eq!(actual_counts.get(&"africa".to_string()), Some(1));
    assert_eq!(actual_counts.get(&"hot".to_string()), Some(1));
}

#[test]
fn test_count_all_words() {
    let word_list = words_of(vec!["chicago", "is", "cold", "africa", "is", "hot"]);

    let actual_counts = count_all(&word_list);

    assert_eq!(actual_counts.len(), 5);
    assert_eq!(actual_counts.get(&"chicago".to_string()), Some(1));
    assert_eq!(actual_counts.get(&"is".to_string()), Some(2));
    assert_eq!(actual_counts.get(&"cold".to_string()), Some(1));
    assert_eq!(actual_counts.get(&"africa".to_string()), Some(1));
    assert_eq!(actual_counts.get(&"hot".to_string()), Some(1));
}

#[test]
fn test_count_all_bigrams() {
    let word_list = word_pairs(&words_of(vec!["chicago", "is", "cold", "is", "cold"]));

    let actual_counts = count_all(&word_list);

    assert_eq!(actual_counts.len(), 3);
    assert_eq!(
        actual_counts.get(&("chicago".to_string(), "is".to_string())),
        Some(1)
    );
    assert_eq!(
        actual_counts.get(&("is".to_string(), "cold".to_string())),
        Some(2)
    );
    assert_eq!(
        actual_counts.get(&("cold".to_string(), "is".to_string())),
        Some(1)
    );
}

fn merge_fixture_left() -> CountTable<String> {
    let mut left = CountTable::new();
    left.set(&"one".to_string(), 1);
    left.set(&"two".to_string(), 1);
    left.set(&"three".to_string(), 2);
    left
}

fn merge_fixture_right() -> CountTable<String> {
    let mut right = CountTable::new();
    right.set(&"two".to_string(), 1);
    right.set(&"three".to_string(), 1);
    right.set(&"four".to_string(), 4);
    right
}

fn assert_merged_fixture(actual: &CountTable<String>) {
    assert_eq!(actual.len(), 4);
    assert_eq!(actual.get(&"one".to_string()), Some(1));
    assert_eq!(actual.get(&"two".to_string()), Some(2));
    assert_eq!(actual.get(&"three".to_string()), Some(3));
    assert_eq!(actual.get(&"four".to_string()), Some(4));
}

#[test]
fn test_merge_hashmaps_with() {
    let actual = merge_hashmaps_with(merge_fixture_left(), merge_fixture_right());

    assert_merged_fixture(&actual);
}

#[test]
fn tests_test_merge_hashmaps_with() {
    let actual = merge_hashmaps_with(merge_fixture_left(), merge_fixture_right());

    assert_merged_fixture(&actual);
}

#[test]
fn test_merge_is_order_independent() {
    let ab = merge_hashmaps_with(merge_fixture_left(), merge_fixture_right());
    let ba = merge_hashmaps_with(merge_fixture_right(), merge_fixture_left());

    assert_merged_fixture(&ab);
    assert_merged_fixture(&ba);
    assert_eq!(ab.len(), ba.len());
}

#[test]
fn test_seeding_vocabulary_twice_is_idempotent() {
    let vocabulary = words_of(vec!["hot", "cold", "hot"]);
    let counts = count_all(&words_of(vec!["cold", "cold", "wind"]));

    let seeded_once = merge_hashmaps_with(count_all(&words_of(vec!["cold", "cold", "wind"])), to_hashmap_keys(&vocabulary, 0));
    let seeded_twice = merge_hashmaps_with(
        merge_hashmaps_with(counts, to_hashmap_keys(&vocabulary, 0)),
        to_hashmap_keys(&vocabulary, 0),
    );

    assert_eq!(seeded_once.len(), 3);
    assert_eq!(seeded_twice.len(), 3);
    for key in ["hot", "cold", "wind"] {
        assert_eq!(seeded_once.get(&key.to_string()), seeded_twice.get(&key.to_string()));
    }
    assert_eq!(seeded_once.get(&"hot".to_string()), Some(0));
    assert_eq!(seeded_once.get(&"cold".to_string()), Some(2));
    assert_eq!(seeded_once.get(&"wind".to_string()), Some(1));
}

#[test]
fn test_to_hashmap_keys_collapses_duplicates() {
    let vocabulary = words_of(vec!["hot", "hot", "dry"]);

    let seeded = to_hashmap_keys(&vocabulary, 0);

    assert_eq!(seeded.len(), 2);
    assert_eq!(seeded.get(&"hot".to_string()), Some(0));
    assert_eq!(seeded.get(&"dry".to_string()), Some(0));
    assert_eq!(seeded.get(&"wet".to_string()), None);
}

#[test]
fn test_word_pairs_of_short_lists() {
    assert_eq!(word_pairs(&Vec::new()), Vec::<(String, String)>::new());
    assert_eq!(word_pairs(&words_of(vec!["alone"])), Vec::<(String, String)>::new());
    assert_eq!(
        word_pairs(&words_of(vec!["a", "b", "c"])),
        vec![
            ("a".to_string(), "b".to_string()),
            ("b".to_string(), "c".to_string())
        ]
    );
}
