use word_search::words::{get_words, WordListType};

#[test]
fn options_lists_every_category_in_order() {
    let options = WordListType::get_options();
    assert_eq!(options.len(), 4);
    assert!(matches!(options[0], WordListType::EarlyPrimary));
    assert!(matches!(options[1], WordListType::MidPrimary));
    assert!(matches!(options[2], WordListType::LatePrimary));
    assert!(matches!(options[3], WordListType::Dragons));
}

#[test]
fn filter_keeps_short_words_and_drops_long_ones() {
    let words = get_words("cat\ndog\nelephant", 5);
    assert_eq!(words, vec!["cat".to_string(), "dog".to_string()]);
}

#[test]
fn filter_drops_comments_and_blank_lines() {
    let words = get_words("-- a header comment\n\ncat\n   \ndog\n-- tail", 10);
    assert_eq!(words, vec!["cat".to_string(), "dog".to_string()]);
}

#[test]
fn filter_trims_surrounding_whitespace() {
    let words = get_words("  dog  \n\tcat\r\n horse ", 10);
    assert_eq!(
        words,
        vec!["dog".to_string(), "cat".to_string(), "horse".to_string()]
    );
}

#[test]
fn filter_drops_words_shorter_than_three() {
    let words = get_words("ox\nbee\nat\na\nfour", 10);
    assert_eq!(words, vec!["bee".to_string(), "four".to_string()]);
}

#[test]
fn filter_length_bound_is_inclusive() {
    let words = get_words("abcde\nabcdef", 5);
    assert_eq!(words, vec!["abcde".to_string()]);
}

#[test]
fn filter_on_tiny_grid_keeps_nothing() {
    let words = get_words("cat\ndog\nelephant", 1);
    assert!(words.is_empty());
}

#[test]
fn filter_preserves_resource_order_and_duplicates() {
    let words = get_words("dog\ncat\ndog", 10);
    assert_eq!(
        words,
        vec!["dog".to_string(), "cat".to_string(), "dog".to_string()]
    );
}

#[test]
fn filter_trims_unicode_whitespace() {
    let words = get_words("cat\u{000B}\n\u{00A0}dog\u{00A0}\n\u{3000}elk", 10);
    assert_eq!(
        words,
        vec!["cat".to_string(), "dog".to_string(), "elk".to_string()]
    );
}

#[test]
fn filter_is_deterministic() {
    let text = "-- list\n cat \ndog\nelephant\nox\n";
    let first = get_words(text, 6);
    let second = get_words(text, 6);
    assert_eq!(first, second);
}
