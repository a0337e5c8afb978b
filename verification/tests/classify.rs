use vocab::classify::classify;
use vocab::tokenizer::frequency_counter_from_text;

fn entry(w: &str, c: u32) -> (String, u32) {
    (w.to_string(), c)
}

fn words(ws: &[&str]) -> Vec<String> {
    ws.iter().map(|w| w.to_string()).collect()
}

#[test]
fn test_classify_empty() {
    let r = classify(&Vec::new(), &Vec::new());
    assert_eq!(r.unique_word_count, 0);
    assert_eq!(r.total_word_count, 0);
    assert_eq!(r.known_count(), 0);
    assert_eq!(r.unknown_count(), 0);
    assert!(r.known_words.is_empty());
    assert!(r.unknown_words.is_empty());
    assert_eq!(r.known_percentage_hundredths(), 0);
}

#[test]
fn test_known_percentage_half() {
    let entries = vec![entry("a", 1), entry("b", 1), entry("c", 1), entry("d", 1)];
    let known = words(&["a", "b"]);
    let r = classify(&entries, &known);
    assert_eq!(r.unique_word_count, 4);
    assert_eq!(r.total_word_count, 4);
    assert_eq!(r.known_count(), 2);
    assert_eq!(r.unknown_count(), 2);
    assert_eq!(r.known_percentage_hundredths(), 5000);
    let pct: f32 = (r.known_count() as f32) / (r.unique_word_count as f32) * 100.0;
    assert_eq!(pct, 50.0);
}

#[test]
fn test_partition_is_complete_and_disjoint() {
    let entries = frequency_counter_from_text("the cat and the dog and the fish");
    let known = words(&["the", "dog", "unrelated"]);
    let r = classify(&entries, &known);
    assert_eq!(r.known_count() + r.unknown_count(), r.unique_word_count);
    for (w, _) in &entries {
        let in_known = r.known_words.contains(w);
        let in_unknown = r.unknown_words.contains(w);
        assert!(in_known != in_unknown);
        assert_eq!(in_known, known.contains(w));
    }
    for w in &r.known_words {
        assert!(!r.unknown_words.contains(w));
    }
}

#[test]
fn test_known_words_are_table_words_only() {
    let entries = vec![entry("cat", 2)];
    let known = words(&["cat", "dog"]);
    let r = classify(&entries, &known);
    assert_eq!(r.known_words, words(&["cat"]));
    assert!(r.unknown_words.is_empty());
}

#[test]
fn test_total_sums_counts() {
    let entries = vec![entry("a", 3), entry("b", 2), entry("c", 1)];
    let r = classify(&entries, &Vec::new());
    assert_eq!(r.total_word_count, 6);
    assert_eq!(r.unique_word_count, 3);
    assert_eq!(r.known_percentage_hundredths(), 0);
    assert_eq!(r.unknown_words, words(&["a", "b", "c"]));
}

#[test]
fn test_classify_keeps_table_order() {
    let entries = vec![entry("c", 3), entry("a", 2), entry("b", 1)];
    let known = words(&["b", "c"]);
    let r = classify(&entries, &known);
    assert_eq!(r.known_words, words(&["c", "b"]));
    assert_eq!(r.unknown_words, words(&["a"]));
}
