use sear_stone::review::{DAY_MS, HOUR_MS, LATEST_REVIEW_TIME, WEEK_MS};
use sear_stone::{JPWord, ReviewInterval, TimesReviewed, WordType};

const LADDER: [ReviewInterval; 9] = [
    ReviewInterval::ThreeHours,
    ReviewInterval::OneDay,
    ReviewInterval::ThreeDays,
    ReviewInterval::OneWeek,
    ReviewInterval::TwoWeeks,
    ReviewInterval::OneMonth,
    ReviewInterval::ThreeMonths,
    ReviewInterval::SixMonths,
    ReviewInterval::OneYear,
];

fn clock_ms() -> i64 {
    std::time::SystemTime::now()
        .duration_since(std::time::UNIX_EPOCH)
        .unwrap()
        .as_millis() as i64
}

#[test]
fn durations_of_each_rung() {
    let expected = [
        10_800_000i64,
        86_400_000,
        259_200_000,
        604_800_000,
        1_209_600_000,
        2_419_200_000,
        7_257_600_000,
        14_515_200_000,
        31_449_600_000,
    ];
    for (r, ms) in LADDER.iter().zip(expected.iter()) {
        assert_eq!(r.duration(), *ms);
    }
    assert_eq!(HOUR_MS, 3_600_000);
    assert_eq!(DAY_MS, 24 * HOUR_MS);
    assert_eq!(WEEK_MS, 7 * DAY_MS);
}

#[test]
fn ladder_increases_strictly() {
    for w in LADDER.windows(2) {
        assert!(w[0].duration() < w[1].duration());
    }
}

#[test]
fn next_dur_steps_one_rung() {
    for i in 0..8 {
        let mut r = LADDER[i];
        assert_eq!(r.next_dur(), LADDER[i + 1]);
        assert_eq!(r, LADDER[i]);
    }
}

#[test]
fn terminal_rung_clamps() {
    let mut r = ReviewInterval::ThreeHours;
    for _ in 0..20 {
        r = r.next_dur();
    }
    assert_eq!(r, ReviewInterval::OneYear);

    let mut e = JPWord::new_at("ねこ".to_string(), 0);
    e.review_iter = ReviewInterval::OneYear;
    for round in 0..3 {
        e.reviewed_correct = TimesReviewed::Zero;
        for _ in 0..3 {
            e.record_outcome(true, 1_000 * round);
        }
        assert_eq!(e.review_iter, ReviewInterval::OneYear);
        assert_eq!(e.next_review, 1_000 * round + 52 * WEEK_MS);
    }
}

#[test]
fn fresh_entry_defaults() {
    let e = JPWord::new_at("いぬ".to_string(), 1_234);
    assert_eq!(e.word, "いぬ");
    assert_eq!(e.word_type, None);
    assert_eq!(e.definition, None);
    assert_eq!(e.get_next_review(), 1_234);
    assert_eq!(e.review_iter, ReviewInterval::ThreeHours);
    assert!(e.to_review);
    assert_eq!(e.reviewed_correct, TimesReviewed::Zero);
    assert_eq!(e.display_text(), "いぬ");
}

#[test]
fn three_correct_recalls_graduate_once() {
    let mut e = JPWord::new_at("ねこ".to_string(), 1_000);
    e.record_outcome(true, 2_000);
    assert_eq!(e.reviewed_correct, TimesReviewed::One);
    assert_eq!((e.next_review, e.review_iter, e.to_review), (1_000, ReviewInterval::ThreeHours, true));
    e.record_outcome(false, 2_500);
    assert_eq!(e.reviewed_correct, TimesReviewed::One);
    assert_eq!((e.next_review, e.review_iter, e.to_review), (1_000, ReviewInterval::ThreeHours, true));
    e.record_outcome(true, 3_000);
    assert_eq!(e.reviewed_correct, TimesReviewed::Two);
    assert_eq!((e.next_review, e.review_iter), (1_000, ReviewInterval::ThreeHours));
    e.record_outcome(false, 3_500);
    assert_eq!((e.next_review, e.review_iter), (1_000, ReviewInterval::ThreeHours));
    e.record_outcome(true, 4_000);
    assert_eq!(e.reviewed_correct, TimesReviewed::ThreePlus);
    assert_eq!(e.next_review, 4_000 + 3 * HOUR_MS);
    assert!(e.next_review > 1_000);
    assert_eq!(e.review_iter, ReviewInterval::OneDay);
    assert!(!e.to_review);

    e.to_review = true;
    e.record_outcome(true, 9_000);
    assert_eq!(e.reviewed_correct, TimesReviewed::ThreePlus);
    assert_eq!(e.next_review, 4_000 + 3 * HOUR_MS);
    assert_eq!(e.review_iter, ReviewInterval::OneDay);
    assert!(!e.to_review);
}

#[test]
fn recall_at_latest_time_fits() {
    let mut e = JPWord::new_at("ねこ".to_string(), 0);
    e.reviewed_correct = TimesReviewed::Two;
    e.review_iter = ReviewInterval::OneYear;
    e.record_outcome(true, LATEST_REVIEW_TIME);
    assert_eq!(e.next_review, i64::MAX);
}

#[test]
fn recompute_due_cases() {
    let mut past = JPWord::new_at("あ".to_string(), 100);
    past.to_review = false;
    past.recompute_due(500);
    assert!(past.to_review);

    let mut at = JPWord::new_at("い".to_string(), 500);
    at.to_review = false;
    at.recompute_due(500);
    assert!(at.to_review);

    let mut future = JPWord::new_at("う".to_string(), 1_000);
    future.to_review = false;
    future.recompute_due(500);
    assert!(!future.to_review);

    let mut queued = JPWord::new_at("え".to_string(), 1_000);
    queued.recompute_due(500);
    assert!(queued.to_review);
    queued.recompute_due(5_000);
    assert!(queued.to_review);
    assert_eq!(queued.next_review, 1_000);
}

#[test]
fn simple_new_reads_the_clock() {
    let before = clock_ms();
    let e = JPWord::simple_new("そら".to_string());
    let after = clock_ms();
    assert!(before - 1_000 <= e.next_review && e.next_review <= after + 1_000);
    assert!(e.to_review);
}

#[test]
fn correct_uses_the_clock_on_graduation() {
    let mut e = JPWord::new_at("そら".to_string(), 0);
    e.correct();
    e.correct();
    let before = clock_ms();
    e.correct();
    let after = clock_ms();
    let expected_low = before - 1_000 + 3 * HOUR_MS;
    let expected_high = after + 1_000 + 3 * HOUR_MS;
    assert!(expected_low <= e.next_review && e.next_review <= expected_high);
    assert_eq!(e.review_iter, ReviewInterval::OneDay);
    assert!(!e.to_review);
}

#[test]
fn word_type_menu_numbers() {
    let expected = [
        WordType::Noun,
        WordType::Pronoun,
        WordType::Verb,
        WordType::Adjective,
        WordType::Adverb,
        WordType::Preposition,
        WordType::Conjunction,
        WordType::Interjection,
        WordType::Article,
        WordType::Quantifier,
        WordType::Auxiliary,
        WordType::Phrase,
    ];
    for (i, t) in expected.iter().enumerate() {
        assert_eq!(WordType::from_number(i as u32 + 1), Some(*t));
    }
    assert_eq!(WordType::from_number(0), None);
    assert_eq!(WordType::from_number(13), None);
    assert_eq!(WordType::from_number(u32::MAX), None);
}

#[test]
fn answer_text_trims_or_says_none() {
    let mut e = JPWord::new_at("ねこ".to_string(), 0);
    assert_eq!(e.answer_text(), "No Definition");
    e.definition = Some("  a cat\n".to_string());
    assert_eq!(e.answer_text(), "a cat");
    e.definition = Some("\u{3000}ねこ\u{3000}".to_string());
    assert_eq!(e.answer_text(), "ねこ");
    e.definition = Some(" \t\n".to_string());
    assert_eq!(e.answer_text(), "");
}
