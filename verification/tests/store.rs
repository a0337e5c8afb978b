use vocab::store::{align_word_ids, apply_batch_decision, filter_new_words, VocabStore};

fn words(ws: &[&str]) -> Vec<String> {
    ws.iter().map(|w| w.to_string()).collect()
}

fn english() -> String {
    "english".to_string()
}

#[test]
fn test_insert_then_resolve_round_trip() {
    let mut store = VocabStore::new();
    let ids = store.insert_words_returning_ids(&words(&["x"]), &english());
    assert_eq!(ids.len(), 1);
    let resolved = store.resolve_word_ids(&words(&["x"]), &english());
    assert_eq!(resolved, vec![Some(ids[0])]);
}

#[test]
fn test_insert_skips_existing_words() {
    let mut store = VocabStore::new();
    let first = store.insert_words_returning_ids(&words(&["exist1"]), &english());
    assert_eq!(first.len(), 1);
    let ids = store.insert_words_returning_ids(&words(&["new1", "new2", "exist1"]), &english());
    assert_eq!(ids.len(), 2);
    assert!(ids.iter().all(|&id| id > 0));
    let id_new1 = store.resolve_word_id(&"new1".to_string(), &english());
    let id_new2 = store.resolve_word_id(&"new2".to_string(), &english());
    assert!(ids.contains(&id_new1.unwrap()));
    assert!(ids.contains(&id_new2.unwrap()));
    let id_exist1 = store.resolve_word_id(&"exist1".to_string(), &english());
    assert!(!ids.contains(&id_exist1.unwrap()));
    assert_eq!(store.word_count(), 3);
}

#[test]
fn test_resolve_text_round_trip() {
    let mut store = VocabStore::new();
    let ids = store.insert_words_returning_ids(&words(&["unitread"]), &english());
    let fetched = store.resolve_word_text(ids[0]);
    assert_eq!(fetched, Some("unitread".to_string()));
}

#[test]
fn test_resolve_missing() {
    let store = VocabStore::new();
    let resolved = store.resolve_word_ids(&words(&["ghost"]), &english());
    assert_eq!(resolved, vec![None]);
    assert_eq!(store.resolve_word_text(1), None);
    assert_eq!(store.resolve_word_text(0), None);
}

#[test]
fn test_language_distinguishes_words() {
    let mut store = VocabStore::new();
    let a = store.insert_words_returning_ids(&words(&["sol"]), &english());
    let b = store.insert_words_returning_ids(&words(&["sol"]), &"portuguese".to_string());
    assert_eq!(a.len(), 1);
    assert_eq!(b.len(), 1);
    assert!(a[0] != b[0]);
}

#[test]
fn test_link_word_counts() {
    let mut store = VocabStore::new();
    let ids = store.insert_words_returning_ids(&words(&["testword"]), &english());
    let user = 1u64;
    assert_eq!(store.link_word_to_user(user, ids[0]), 1);
    assert_eq!(store.link_word_to_user(user, ids[0]), 0);
    assert_eq!(store.get_known_word_ids(user), vec![ids[0]]);
}

#[test]
fn test_link_words_batch_counts() {
    let mut store = VocabStore::new();
    let ids = store.insert_words_returning_ids(&words(&["word1", "word2"]), &english());
    let user = 1u64;
    assert_eq!(store.link_words_to_user(user, &ids), 2);
    assert_eq!(store.link_words_to_user(user, &ids), 0);
    let known = store.get_known_word_ids(user);
    assert_eq!(known.len(), 2);
    assert!(known.contains(&ids[0]));
    assert!(known.contains(&ids[1]));
}

#[test]
fn test_unlink_word() {
    let mut store = VocabStore::new();
    let ids = store.insert_words_returning_ids(&words(&["testword"]), &english());
    let user = 1u64;
    store.link_word_to_user(user, ids[0]);
    assert_eq!(store.unlink_word_from_user(user, ids[0]), 1);
    assert_eq!(store.get_known_word_ids(user), Vec::<u64>::new());
    assert_eq!(store.unlink_word_from_user(user, ids[0]), 0);
}

#[test]
fn test_links_are_per_user() {
    let mut store = VocabStore::new();
    let ids = store.insert_words_returning_ids(&words(&["shared"]), &english());
    store.link_word_to_user(1, ids[0]);
    store.link_word_to_user(2, ids[0]);
    assert_eq!(store.get_known_word_ids(1), vec![ids[0]]);
    assert_eq!(store.get_known_word_ids(2), vec![ids[0]]);
    store.unlink_word_from_user(1, ids[0]);
    assert_eq!(store.get_known_word_ids(1), Vec::<u64>::new());
    assert_eq!(store.get_known_word_ids(2), vec![ids[0]]);
}

#[test]
fn test_batch_decision_yes_links_all() {
    let mut store = VocabStore::new();
    let ids = store.insert_words_returning_ids(&words(&["uno", "dos", "tres"]), &english());
    let user = 7u64;
    let batch: Vec<Option<u64>> = ids.iter().map(|&id| Some(id)).collect();
    let added = apply_batch_decision(&mut store, user, &batch, true);
    assert_eq!(added, 3);
    let known = store.get_known_word_ids(user);
    assert_eq!(known.len(), 3);
    for id in &ids {
        assert!(known.contains(id));
    }
}

#[test]
fn test_batch_decision_no_changes_nothing() {
    let mut store = VocabStore::new();
    let ids = store.insert_words_returning_ids(&words(&["uno", "dos", "tres"]), &english());
    let user = 7u64;
    let batch: Vec<Option<u64>> = ids.iter().map(|&id| Some(id)).collect();
    let added = apply_batch_decision(&mut store, user, &batch, false);
    assert_eq!(added, 0);
    assert_eq!(store.get_known_word_ids(user), Vec::<u64>::new());
}

#[test]
fn test_batch_decision_skips_unresolved() {
    let mut store = VocabStore::new();
    let ids = store.insert_words_returning_ids(&words(&["uno", "dos"]), &english());
    let user = 7u64;
    let batch = vec![Some(ids[0]), None, Some(ids[1])];
    let added = apply_batch_decision(&mut store, user, &batch, true);
    assert_eq!(added, 2);
    assert_eq!(store.get_known_word_ids(user).len(), 2);
}

#[test]
fn test_filter_new_words() {
    let all = words(&["exist1", "exist2", "notexist"]);
    let existing = words(&["exist1", "exist2"]);
    let fresh = filter_new_words(&all, &existing);
    assert_eq!(fresh, words(&["notexist"]));
}

#[test]
fn test_align_word_ids() {
    let list = words(&["test1", "test2", "test3"]);
    let rows = vec![("test1".to_string(), 1u64), ("test2".to_string(), 2u64)];
    let aligned = align_word_ids(&list, &rows);
    assert_eq!(aligned, vec![Some(1), Some(2), None]);
}

#[test]
fn test_align_duplicate_words_fill_first_position() {
    let list = words(&["dup", "dup", "other"]);
    let rows = vec![("dup".to_string(), 5u64)];
    let aligned = align_word_ids(&list, &rows);
    assert_eq!(aligned, vec![Some(5), None, None]);
}
