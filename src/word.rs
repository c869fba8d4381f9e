//! A vocabulary entry: a word, what is known of it, and where it stands on
//! the review ladder.

use vstd::prelude::*;
use crate::review::{
    interval_ms, next_rung, now_millis, rung, ReviewInterval, TimesReviewed, HOUR_MS,
    LATEST_REVIEW_TIME,
};
use crate::text::{trim, trimmed};

verus! {

/// The part of speech of a word.
#[derive(Clone, Copy, PartialEq, Eq, Debug, Structural)]
pub enum WordType {
    Noun,
    Pronoun,
    Verb,
    Adjective,
    Adverb,
    Preposition,
    Conjunction,
    Interjection,
    Article,
    Quantifier,
    Auxiliary,
    Phrase,
}

/// The part of speech numbered `n` on the menu, from 1 (noun) to 12
/// (phrase); any other number leaves the word unclassified.
pub open spec fn word_type_of_number(n: u32) -> Option<WordType> {
    if n == 1 {
        Some(WordType::Noun)
    } else if n == 2 {
        Some(WordType::Pronoun)
    } else if n == 3 {
        Some(WordType::Verb)
    } else if n == 4 {
        Some(WordType::Adjective)
    } else if n == 5 {
        Some(WordType::Adverb)
    } else if n == 6 {
        Some(WordType::Preposition)
    } else if n == 7 {
        Some(WordType::Conjunction)
    } else if n == 8 {
        Some(WordType::Interjection)
    } else if n == 9 {
        Some(WordType::Article)
    } else if n == 10 {
        Some(WordType::Quantifier)
    } else if n == 11 {
        Some(WordType::Auxiliary)
    } else if n == 12 {
        Some(WordType::Phrase)
    } else {
        None
    }
}

impl WordType {
    /// The part of speech numbered `n` on the menu, if any.
    pub fn from_number(n: u32) -> (r: Option<WordType>)
        ensures
            r == word_type_of_number(n),
    {
        match n {
            1 => Some(WordType::Noun),
            2 => Some(WordType::Pronoun),
            3 => Some(WordType::Verb),
            4 => Some(WordType::Adjective),
            5 => Some(WordType::Adverb),
            6 => Some(WordType::Preposition),
            7 => Some(WordType::Conjunction),
            8 => Some(WordType::Interjection),
            9 => Some(WordType::Article),
            10 => Some(WordType::Quantifier),
            11 => Some(WordType::Auxiliary),
            12 => Some(WordType::Phrase),
            _ => None,
        }
    }
}

/// What an entry holds, with its texts as character sequences.
pub struct EntryView {
    pub word: Seq<char>,
    pub word_type: Option<WordType>,
    pub definition: Option<Seq<char>>,
    pub next_review: int,
    pub review_iter: ReviewInterval,
    pub to_review: bool,
    pub reviewed_correct: TimesReviewed,
}

/// A vocabulary entry. `next_review` is in milliseconds since the Unix
/// epoch; `to_review` says that the word is queued for review.
#[derive(Clone, Debug)]
pub struct JPWord {
    pub word: String,
    pub word_type: Option<WordType>,
    pub definition: Option<String>,
    pub next_review: i64,
    pub review_iter: ReviewInterval,
    pub to_review: bool,
    pub reviewed_correct: TimesReviewed,
}

/// The text of a possible string.
pub open spec fn opt_text(o: Option<String>) -> Option<Seq<char>> {
    match o {
        Some(s) => Some(s@),
        None => None,
    }
}

impl View for JPWord {
    type V = EntryView;

    open spec fn view(&self) -> EntryView {
        EntryView {
            word: self.word@,
            word_type: self.word_type,
            definition: opt_text(self.definition),
            next_review: self.next_review as int,
            review_iter: self.review_iter,
            to_review: self.to_review,
            reviewed_correct: self.reviewed_correct,
        }
    }
}

/// A new entry for `w` made at time `now`: no metadata, the first rung, no
/// correct recall yet, queued for review, due at once.
pub open spec fn fresh_entry(w: Seq<char>, now: int) -> EntryView {
    EntryView {
        word: w,
        word_type: None,
        definition: None,
        next_review: now,
        review_iter: ReviewInterval::ThreeHours,
        to_review: true,
        reviewed_correct: TimesReviewed::Zero,
    }
}

/// An entry after a recall at time `now`. A miss changes nothing. A correct
/// recall counts one more in a row; the third in a row schedules the next
/// review one interval of the current rung after `now`, moves up a rung and
/// takes the word off the review queue. Past three, a correct recall only
/// takes the word off the queue.
pub open spec fn after_outcome(e: EntryView, correct: bool, now: int) -> EntryView {
    if !correct {
        e
    } else {
        match e.reviewed_correct {
            TimesReviewed::Zero => EntryView { reviewed_correct: TimesReviewed::One, ..e },
            TimesReviewed::One => EntryView { reviewed_correct: TimesReviewed::Two, ..e },
            TimesReviewed::Two => EntryView {
                reviewed_correct: TimesReviewed::ThreePlus,
                next_review: now + interval_ms(e.review_iter),
                review_iter: next_rung(e.review_iter),
                to_review: false,
                ..e
            },
            TimesReviewed::ThreePlus => EntryView { to_review: false, ..e },
        }
    }
}

/// An entry after the due check at time `now`: a word not queued whose
/// review time has come is queued; any other entry is left as it is.
pub open spec fn after_recompute(e: EntryView, now: int) -> EntryView {
    if !e.to_review && now >= e.next_review {
        EntryView { to_review: true, ..e }
    } else {
        e
    }
}

/// The answer shown when the word is tested: its definition without
/// surrounding white space, or "No Definition" when it has none.
pub open spec fn answer_of(e: EntryView) -> Seq<char> {
    match e.definition {
        Some(d) => trimmed(d),
        None => "No Definition"@,
    }
}

impl JPWord {
    /// A fresh entry for `w`, made at time `now`.
    pub fn new_at(w: String, now: i64) -> (r: JPWord)
        ensures
            r@ == fresh_entry(w@, now as int),
    {
        JPWord {
            word: w,
            word_type: None,
            definition: None,
            next_review: now,
            review_iter: ReviewInterval::ThreeHours,
            to_review: true,
            reviewed_correct: TimesReviewed::Zero,
        }
    }

    /// A fresh entry for `w`, made now.
    pub fn simple_new(w: String) -> (r: JPWord)
        ensures
            exists|t: int| t <= LATEST_REVIEW_TIME && r@ == fresh_entry(w@, t),
    {
        let now = now_millis();
        JPWord::new_at(w, now)
    }

    /// When the word is next due, in milliseconds since the Unix epoch.
    pub fn get_next_review(&self) -> (t: i64)
        ensures
            t == self.next_review,
    {
        self.next_review
    }

    /// The word itself, as it is shown.
    pub fn display_text(&self) -> (s: String)
        ensures
            s@ == self.word@,
    {
        self.word.clone()
    }

    /// The answer shown when the word is tested.
    pub fn answer_text(&self) -> (r: String)
        ensures
            r@ == answer_of(self@),
    {
        match &self.definition {
            Some(d) => trim(d.as_str()).to_owned(),
            None => "No Definition".to_owned(),
        }
    }

    /// Records a recall made at time `now`, correct or not. A miss changes
    /// nothing.
    pub fn record_outcome(&mut self, correct: bool, now: i64)
        requires
            now <= LATEST_REVIEW_TIME,
        ensures
            final(self)@ == after_outcome(old(self)@, correct, now as int),
            !correct ==> final(self)@ == old(self)@,
    {
        if correct {
            match self.reviewed_correct {
                TimesReviewed::Zero => {
                    self.reviewed_correct = TimesReviewed::One;
                },
                TimesReviewed::One => {
                    self.reviewed_correct = TimesReviewed::Two;
                },
                TimesReviewed::Two => {
                    self.next_review = now + self.review_iter.duration();
                    let mut current = self.review_iter;
                    self.review_iter = current.next_dur();
                    self.reviewed_correct = TimesReviewed::ThreePlus;
                    self.to_review = false;
                },
                TimesReviewed::ThreePlus => {
                    self.to_review = false;
                },
            }
        }
    }

    /// Records a correct recall made now.
    pub fn correct(&mut self)
        ensures
            exists|t: int|
                t <= LATEST_REVIEW_TIME && final(self)@ == after_outcome(
                    old(self)@,
                    true,
                    t,
                ),
    {
        let now = now_millis();
        self.record_outcome(true, now);
    }

    /// Queues the word for review if it is not queued and its review time
    /// `next_review` is at or before `now`.
    pub fn recompute_due(&mut self, now: i64)
        ensures
            final(self)@ == after_recompute(old(self)@, now as int),
            old(self).to_review ==> final(self)@ == old(self)@,
            !old(self).to_review && now >= old(self).next_review ==> final(self).to_review,
            !old(self).to_review && now < old(self).next_review ==> final(self)@ == old(self)@,
    {
        if !self.to_review && now >= self.next_review {
            self.to_review = true;
        }
    }
}

/// Three correct recalls in a row, at times that do not run backwards,
/// graduate a fresh entry: the first two move neither its review time nor
/// its rung, the third sets the review time to three hours after the third
/// recall, strictly later than when the entry was made, and climbs exactly
/// one rung. A miss moves nothing, so misses between the recalls leave the
/// same result.
pub proof fn lemma_ladder_monotonic(
    w: Seq<char>,
    made: int,
    t1: int,
    t2: int,
    t3: int,
    t_miss: int,
)
    requires
        made <= t1 <= t2 <= t3,
    ensures
        ({
            let e0 = fresh_entry(w, made);
            let e1 = after_outcome(e0, true, t1);
            let e2 = after_outcome(e1, true, t2);
            let e3 = after_outcome(e2, true, t3);
            &&& e1.next_review == made && e1.review_iter == e0.review_iter
            &&& e2.next_review == made && e2.review_iter == e0.review_iter
            &&& e3.next_review == t3 + 3 * HOUR_MS
            &&& e3.next_review > e0.next_review
            &&& rung(e3.review_iter) == rung(e0.review_iter) + 1
            &&& !e3.to_review
        }),
        ({
            let e0 = fresh_entry(w, made);
            let e1 = after_outcome(e0, true, t1);
            after_outcome(
                after_outcome(after_outcome(after_outcome(e1, false, t_miss), true, t2), false, t_miss),
                true,
                t3,
            ) == after_outcome(after_outcome(e1, true, t2), true, t3)
        }),
        forall|e: EntryView, t: int| #[trigger] after_outcome(e, false, t) == e,
{
}

/// Graduating an entry on the last rung keeps it on the last rung, however
/// often it happens.
pub proof fn lemma_terminal_rung_clamp(e: EntryView, now: int)
    requires
        e.review_iter == ReviewInterval::OneYear,
    ensures
        after_outcome(e, true, now).review_iter == ReviewInterval::OneYear,
        after_outcome(e, false, now).review_iter == ReviewInterval::OneYear,
{
}

} // verus!
