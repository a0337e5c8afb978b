use vocab::tokenizer::{frequency_counter_from_text, line_stats};

fn entry(w: &str, c: u32) -> (String, u32) {
    (w.to_string(), c)
}

#[test]
fn test_case_and_quote_normalization() {
    let r = frequency_counter_from_text("Don't Don't don\u{2019}t");
    assert_eq!(r, vec![entry("don't", 3)]);
}

#[test]
fn test_separator_handling() {
    let r = frequency_counter_from_text("a, b. c!");
    assert_eq!(r.len(), 3);
    for (_, c) in &r {
        assert_eq!(*c, 1);
    }
    assert_eq!(r, vec![entry("a", 1), entry("b", 1), entry("c", 1)]);
}

#[test]
fn test_tokenization_idempotent() {
    let text = "One fish, two fish; red fish. Blue fish!";
    let a = frequency_counter_from_text(text);
    let b = frequency_counter_from_text(text);
    assert_eq!(a, b);
}

#[test]
fn test_empty_input() {
    let r = frequency_counter_from_text("");
    assert!(r.is_empty());
}

#[test]
fn test_only_separators() {
    let r = frequency_counter_from_text(" ,.;:!?  \n\t -- ()[]");
    assert!(r.is_empty());
}

#[test]
fn test_counts_descending() {
    let r = frequency_counter_from_text("b b a c c c");
    assert_eq!(r, vec![entry("c", 3), entry("b", 2), entry("a", 1)]);
}

#[test]
fn test_equal_counts_keep_first_seen_order() {
    let r = frequency_counter_from_text("delta alpha delta charlie alpha beta");
    assert_eq!(r[0], entry("delta", 2));
    assert_eq!(r[1], entry("alpha", 2));
    assert_eq!(r[2], entry("charlie", 1));
    assert_eq!(r[3], entry("beta", 1));
}

#[test]
fn test_plus_joiner() {
    let r = frequency_counter_from_text("co+op co+op x");
    assert_eq!(r, vec![entry("co+op", 2), entry("x", 1)]);
}

#[test]
fn test_apostrophe_only_joins_inside_words() {
    let r = frequency_counter_from_text("'a' 'b");
    assert_eq!(r, vec![entry("a", 1), entry("b", 1)]);
}

#[test]
fn test_unicode_lowercasing() {
    let r = frequency_counter_from_text("Caf\u{e9} CAF\u{c9} caf\u{e9}");
    assert_eq!(r, vec![entry("caf\u{e9}", 3)]);
}

#[test]
fn test_digits_are_word_characters() {
    let r = frequency_counter_from_text("x2 42 x2");
    assert_eq!(r, vec![entry("x2", 2), entry("42", 1)]);
}

#[test]
fn test_multiline_text() {
    let r = frequency_counter_from_text("one two\ntwo three\r\nthree three");
    assert_eq!(r, vec![entry("three", 3), entry("two", 2), entry("one", 1)]);
}

#[test]
fn test_line_stats_counts_words_and_chars() {
    assert_eq!(line_stats("hello  world"), (2, 12));
    assert_eq!(line_stats(""), (0, 0));
    assert_eq!(line_stats("   "), (0, 3));
    assert_eq!(line_stats("a b c"), (3, 5));
}
