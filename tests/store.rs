use sear_stone::{JPWord, ReviewInterval, StoreError, TimesReviewed, WordStore, WordType};

fn words(parts: &[&str]) -> Vec<String> {
    parts.iter().map(|s| s.to_string()).collect()
}

fn keys(s: &WordStore) -> Vec<String> {
    s.entries().iter().map(|e| e.word.clone()).collect()
}

fn assert_sorted_unique(s: &WordStore) {
    let k = keys(s);
    for w in k.windows(2) {
        assert!(w[0] < w[1], "{} before {}", w[0], w[1]);
    }
}

type Fields = (String, Option<WordType>, Option<String>, i64, ReviewInterval, bool, TimesReviewed);

fn fields(s: &WordStore) -> Vec<Fields> {
    s.entries()
        .iter()
        .map(|e| {
            (
                e.word.clone(),
                e.word_type,
                e.definition.clone(),
                e.next_review,
                e.review_iter,
                e.to_review,
                e.reviewed_correct,
            )
        })
        .collect()
}

fn store_of(ws: &[&str], now: i64) -> WordStore {
    let mut s = WordStore::new();
    s.merge(&words(ws), now);
    s
}

#[test]
fn merge_sorts_and_dedups() {
    let s = store_of(&["ねこ", "いぬ", "ねこ", "カタカナ", "あ", "いぬ"], 10);
    assert_eq!(keys(&s), words(&["あ", "いぬ", "ねこ", "カタカナ"]));
    assert_sorted_unique(&s);
    for e in s.entries() {
        assert_eq!(e.next_review, 10);
        assert!(e.to_review);
    }
}

#[test]
fn merge_keeps_existing_entries() {
    let mut s = store_of(&["ねこ"], 10);
    s.set_metadata("ねこ", Some(WordType::Noun), Some("cat".to_string())).unwrap();
    s.record_outcome("ねこ", true, 20).unwrap();
    let before = fields(&s)[0].clone();
    s.merge(&words(&["ねこ", "いぬ"]), 99);
    assert_eq!(keys(&s), words(&["いぬ", "ねこ"]));
    assert_eq!(fields(&s)[1], before);
    assert_eq!(fields(&s)[0].3, 99);
}

#[test]
fn merge_twice_is_merge_once() {
    let batch = words(&["う", "あ", "い", "あ"]);
    let mut once = store_of(&["え", "い"], 5);
    once.set_metadata("い", Some(WordType::Verb), None).unwrap();
    once.merge(&batch, 50);
    let snapshot = fields(&once);
    once.merge(&batch, 70);
    assert_eq!(fields(&once), snapshot);
    assert_eq!(keys(&once), words(&["あ", "い", "う", "え"]));
}

#[test]
fn order_is_by_code_point() {
    let s = store_of(&["b", "ab", "a", "", "ア", "あい", "あ"], 0);
    assert_eq!(keys(&s), words(&["", "a", "ab", "b", "あ", "あい", "ア"]));
}

#[test]
fn ingest_reads_texts_as_one_stream() {
    let mut s = WordStore::new();
    s.ingest(&words(&["ねこが", "すき。イヌ"]), 7);
    assert_eq!(keys(&s), words(&["ねこがすき", "イヌ"]));
    s.ingest(&words(&["ねこがすき"]), 8);
    assert_eq!(s.len(), 2);
}

#[test]
fn ingest_now_stamps_current_time() {
    let mut s = WordStore::new();
    s.ingest_now(&words(&["ひらがな。"]));
    assert_eq!(keys(&s), words(&["ひらがな"]));
    assert!(s.get(0).next_review > 1_600_000_000_000);
}

#[test]
fn add_keeps_order_and_refuses_duplicates() {
    let mut s = store_of(&["い", "え"], 0);
    let mut e = JPWord::new_at("う".to_string(), 3);
    e.word_type = Some(WordType::Adverb);
    e.definition = Some("def".to_string());
    assert!(s.add(e));
    assert_eq!(keys(&s), words(&["い", "う", "え"]));
    assert_eq!(s.get(1).word_type, Some(WordType::Adverb));
    let again = JPWord::new_at("う".to_string(), 4);
    assert!(!s.add(again));
    assert_eq!(s.get(1).next_review, 3);
    assert!(s.add(JPWord::new_at("あ".to_string(), 0)));
    assert_sorted_unique(&s);
    assert_eq!(s.find("う"), Some(2));
    assert_eq!(s.find("お"), None);
}

#[test]
fn remove_deletes_the_entry() {
    let mut s = store_of(&["あ", "い", "う"], 0);
    assert_eq!(s.remove("い"), Ok(()));
    assert_eq!(keys(&s), words(&["あ", "う"]));
    assert_sorted_unique(&s);
}

#[test]
fn remove_absent_key_fails_unchanged() {
    let mut s = store_of(&["あ", "い"], 0);
    let before = fields(&s);
    assert_eq!(s.remove("う"), Err(StoreError::NotFound));
    assert_eq!(fields(&s), before);
    let mut empty = WordStore::new();
    assert_eq!(empty.remove("あ"), Err(StoreError::NotFound));
}

#[test]
fn set_metadata_absent_key_fails_unchanged() {
    let mut s = store_of(&["あ", "い"], 0);
    let before = fields(&s);
    assert_eq!(
        s.set_metadata("う", Some(WordType::Noun), Some("x".to_string())),
        Err(StoreError::NotFound)
    );
    assert_eq!(fields(&s), before);
}

#[test]
fn set_metadata_sets_both_fields() {
    let mut s = store_of(&["あ", "い"], 0);
    s.set_metadata("い", Some(WordType::Phrase), Some("yes".to_string())).unwrap();
    assert_eq!(s.get(1).word_type, Some(WordType::Phrase));
    assert_eq!(s.get(1).definition.as_deref(), Some("yes"));
    s.set_metadata("い", None, None).unwrap();
    assert_eq!(s.get(1).word_type, None);
    assert_eq!(s.get(1).definition, None);
    assert_eq!(s.get(0).word_type, None);
}

#[test]
fn record_outcome_by_key() {
    let mut s = store_of(&["あ", "い"], 0);
    assert_eq!(s.record_outcome("う", true, 10), Err(StoreError::NotFound));
    for t in [10, 20, 30] {
        s.record_outcome("い", true, t).unwrap();
    }
    assert_eq!(s.get(1).review_iter, ReviewInterval::OneDay);
    assert_eq!(s.get(1).next_review, 30 + 10_800_000);
    assert!(!s.get(1).to_review);
    assert!(s.get(0).to_review);
}

#[test]
fn correct_by_key_uses_clock() {
    let mut s = store_of(&["あ"], 0);
    assert_eq!(s.correct("い"), Err(StoreError::NotFound));
    for _ in 0..3 {
        s.correct("あ").unwrap();
    }
    assert!(s.get(0).next_review > 1_600_000_000_000);
    assert!(!s.get(0).to_review);
}

#[test]
fn recompute_due_counts_queued() {
    let mut s = store_of(&["あ", "い", "う", "え"], 0);
    for k in ["あ", "い", "う"] {
        for t in [1, 2, 3] {
            s.record_outcome(k, true, t * 1_000).unwrap();
        }
    }
    // あ, い, う are due at 3_000 + 3h; え is still queued.
    assert_eq!(s.recompute_due(3_000), 1);
    assert_eq!(s.due_indices(), vec![3]);
    assert_eq!(s.recompute_due(3_000 + 10_800_000), 4);
    assert_eq!(s.due_indices(), vec![0, 1, 2, 3]);
    assert_sorted_unique(&s);
}

#[test]
fn review_now_queues_past_entries() {
    let mut s = store_of(&["あ", "い"], 0);
    for t in [1, 2, 3] {
        s.record_outcome("あ", true, t).unwrap();
    }
    assert_eq!(s.due_indices(), vec![1]);
    assert_eq!(s.review_now(), 2);
}

#[test]
fn pick_test_word_needs_a_due_entry() {
    assert_eq!(WordStore::new().pick_test_word(), Err(StoreError::EmptyStore));
    let mut s = store_of(&["あ", "い", "う"], 0);
    for k in ["あ", "い", "う"] {
        for t in [1, 2, 3] {
            s.record_outcome(k, true, t).unwrap();
        }
    }
    assert_eq!(s.pick_test_word(), Err(StoreError::EmptyStore));
    s.recompute_due(3 + 10_800_000);
    for _ in 0..20 {
        let i = s.pick_test_word().unwrap();
        assert!(i < 3 && s.get(i).to_review);
    }
}

#[test]
fn pick_test_word_finds_the_only_due_entry() {
    let mut s = store_of(&["あ", "い", "う"], 0);
    for k in ["あ", "う"] {
        for t in [1, 2, 3] {
            s.record_outcome(k, true, t).unwrap();
        }
    }
    for _ in 0..20 {
        assert_eq!(s.pick_test_word(), Ok(1));
    }
}

#[test]
fn sample_positions_are_distinct() {
    assert_eq!(WordStore::new().sample_positions(10), Err(StoreError::EmptyStore));
    let names: Vec<String> = (0..30).map(|i| format!("w{:02}", i)).collect();
    let mut s = WordStore::new();
    s.merge(&names, 0);
    for n in [0usize, 1, 10, 30] {
        let v = s.sample_positions(n).unwrap();
        assert_eq!(v.len(), n);
        let mut sorted = v.clone();
        sorted.sort();
        sorted.dedup();
        assert_eq!(sorted.len(), n);
        assert!(v.iter().all(|&i| i < 30));
    }
    let all = s.sample_positions(100).unwrap();
    let mut sorted = all.clone();
    sorted.sort();
    assert_eq!(sorted, (0..30).collect::<Vec<usize>>());
}

#[test]
fn from_entries_sorts() {
    let loaded = vec![
        JPWord::new_at("う".to_string(), 3),
        JPWord::new_at("あ".to_string(), 1),
        JPWord::new_at("い".to_string(), 2),
    ];
    let s = WordStore::from_entries(loaded).unwrap();
    assert_eq!(keys(&s), words(&["あ", "い", "う"]));
    assert_eq!(s.get(0).next_review, 1);
    assert_eq!(s.into_entries().len(), 3);
    assert_eq!(WordStore::from_entries(Vec::new()).unwrap().len(), 0);
}

#[test]
fn from_entries_rejects_duplicate_keys() {
    let loaded = vec![
        JPWord::new_at("あ".to_string(), 1),
        JPWord::new_at("い".to_string(), 2),
        JPWord::new_at("あ".to_string(), 3),
    ];
    assert_eq!(
        WordStore::from_entries(loaded).err(),
        Some(StoreError::DuplicateKeyOnLoad)
    );
}

#[test]
fn nth_due_counts_in_store_order() {
    let mut s = store_of(&["あ", "い", "う", "え"], 0);
    for k in ["あ", "う"] {
        for t in [1, 2, 3] {
            s.record_outcome(k, true, t).unwrap();
        }
    }
    assert_eq!(s.nth_due(0), Some(1));
    assert_eq!(s.nth_due(1), Some(3));
    assert_eq!(s.nth_due(2), None);
    assert_eq!(WordStore::new().nth_due(0), None);
}

#[test]
fn missed_recall_leaves_store_unchanged() {
    let mut s = store_of(&["あ", "い"], 0);
    s.record_outcome("い", true, 5).unwrap();
    let before = fields(&s);
    assert_eq!(s.record_outcome("い", false, 50), Ok(()));
    assert_eq!(fields(&s), before);
}
