use sear_stone::segmenter::{classify, extract_words};
use sear_stone::{JapaneseWordParser, JapaneseWordType};

fn feed_all(p: &mut JapaneseWordParser, text: &str) -> Vec<Option<String>> {
    text.chars().map(|c| p.add_to_word(c)).collect()
}

fn texts(parts: &[&str]) -> Vec<String> {
    parts.iter().map(|s| s.to_string()).collect()
}

#[test]
fn class_switch_discards_earlier_runs() {
    let mut p = JapaneseWordParser::new();
    let out = feed_all(&mut p, "あアい");
    assert_eq!(out, vec![None, None, None]);
    assert_eq!(p.word, "い");
    assert_eq!(p.word_type, JapaneseWordType::Hiragana);
    assert_eq!(p.finish(), Some("い".to_string()));
    assert_eq!(p.word, "");
    assert_eq!(p.word_type, JapaneseWordType::Neither);
}

#[test]
fn boundary_flush_emits_at_terminator() {
    let mut p = JapaneseWordParser::new();
    let out = feed_all(&mut p, "あいう。");
    assert_eq!(out, vec![None, None, None, Some("あいう".to_string())]);
    assert_eq!(p.finish(), None);
}

#[test]
fn classify_range_edges() {
    assert_eq!(classify('\u{3040}'), JapaneseWordType::Hiragana);
    assert_eq!(classify('\u{309f}'), JapaneseWordType::Hiragana);
    assert_eq!(classify('\u{30a0}'), JapaneseWordType::Katakana);
    assert_eq!(classify('\u{30ff}'), JapaneseWordType::Katakana);
    assert_eq!(classify('\u{303f}'), JapaneseWordType::Neither);
    assert_eq!(classify('\u{3100}'), JapaneseWordType::Neither);
    assert_eq!(classify('漢'), JapaneseWordType::Neither);
    assert_eq!(classify('a'), JapaneseWordType::Neither);
    assert_eq!(classify(' '), JapaneseWordType::Neither);
}

#[test]
fn changed_flag_tracks_class_switches() {
    let mut p = JapaneseWordParser::new();
    assert!(!p.changed);
    p.add_to_word('あ');
    assert!(p.changed);
    p.add_to_word('い');
    assert!(!p.changed);
    p.add_to_word('カ');
    assert!(p.changed);
    p.add_to_word('x');
    assert!(p.changed);
    p.add_to_word('y');
    assert!(!p.changed);
}

#[test]
fn neither_characters_in_a_row_emit_nothing() {
    let mut p = JapaneseWordParser::new();
    let out = feed_all(&mut p, "ab。 カナ、、");
    assert_eq!(
        out,
        vec![None, None, None, None, None, None, Some("カナ".to_string()), None]
    );
}

#[test]
fn extract_words_runs_and_flushes_the_end() {
    let words = extract_words(&texts(&["今日はいい天気ですね。カタカナとひらがな"]));
    assert_eq!(words, texts(&["はいい", "ですね", "とひらがな"]));
}

#[test]
fn extract_words_of_empty_input() {
    assert!(extract_words(&Vec::new()).is_empty());
    assert!(extract_words(&texts(&["", "abc 漢字"])).is_empty());
}

#[test]
fn word_spans_a_text_boundary() {
    let words = extract_words(&texts(&["あい", "う。カタ"]));
    assert_eq!(words, texts(&["あいう", "カタ"]));
}

#[test]
fn segmentation_is_deterministic() {
    let input = texts(&["ねこがすき、イヌもすき。", "テレビをみる"]);
    let first = extract_words(&input);
    let second = extract_words(&input);
    assert_eq!(first, second);
    let resplit = extract_words(&texts(&["ねこがす", "き、イヌもすき。テレ", "ビをみる"]));
    assert_eq!(first, resplit);
    assert_eq!(first, texts(&["ねこがすき", "もすき", "をみる"]));
}

#[test]
fn emitted_words_are_single_class() {
    let words = extract_words(&texts(&["あアいイうウ x ひらカタ。ひらがなカタカナ"]));
    assert!(!words.is_empty());
    for w in &words {
        assert!(!w.is_empty());
        let all_h = w.chars().all(|c| classify(c) == JapaneseWordType::Hiragana);
        let all_k = w.chars().all(|c| classify(c) == JapaneseWordType::Katakana);
        assert!(all_h || all_k, "mixed word {}", w);
    }
    assert_eq!(words, texts(&["ウ", "カタ", "カタカナ"]));
}
