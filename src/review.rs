//! The ladder of review intervals and the count of consecutive correct
//! recalls that moves a word up the ladder.
//!
//! Times are milliseconds since the Unix epoch (UTC), in an `i64`.

use vstd::prelude::*;

verus! {

pub const HOUR_MS: i64 = 3_600_000;

pub const DAY_MS: i64 = 86_400_000;

pub const WEEK_MS: i64 = 604_800_000;

/// The longest interval of the ladder: 52 weeks.
pub const LONGEST_INTERVAL_MS: i64 = 52 * WEEK_MS;

/// The latest time at which a recall can be recorded: the longest interval
/// added to it must still fit in an `i64`.
pub const LATEST_REVIEW_TIME: i64 = i64::MAX - LONGEST_INTERVAL_MS;

/// A rung of the review ladder, named by the interval it stands for.
#[derive(Clone, Copy, PartialEq, Eq, Debug, Structural)]
pub enum ReviewInterval {
    ThreeHours,
    OneDay,
    ThreeDays,
    OneWeek,
    TwoWeeks,
    OneMonth,
    ThreeMonths,
    SixMonths,
    OneYear,
}

/// How many correct recalls in a row a word has had, saturating at three.
#[derive(Clone, Copy, PartialEq, Eq, Debug, Structural)]
pub enum TimesReviewed {
    Zero,
    One,
    Two,
    ThreePlus,
}

/// The position of a rung on the ladder, from 0 (three hours) to 8 (a year).
pub open spec fn rung(r: ReviewInterval) -> nat {
    match r {
        ReviewInterval::ThreeHours => 0,
        ReviewInterval::OneDay => 1,
        ReviewInterval::ThreeDays => 2,
        ReviewInterval::OneWeek => 3,
        ReviewInterval::TwoWeeks => 4,
        ReviewInterval::OneMonth => 5,
        ReviewInterval::ThreeMonths => 6,
        ReviewInterval::SixMonths => 7,
        ReviewInterval::OneYear => 8,
    }
}

/// The interval of a rung, in milliseconds. A month is four weeks here,
/// three months twelve weeks, six months 24 weeks and a year 52 weeks.
pub open spec fn interval_ms(r: ReviewInterval) -> int {
    match r {
        ReviewInterval::ThreeHours => 3 * HOUR_MS,
        ReviewInterval::OneDay => DAY_MS as int,
        ReviewInterval::ThreeDays => 3 * DAY_MS,
        ReviewInterval::OneWeek => WEEK_MS as int,
        ReviewInterval::TwoWeeks => 2 * WEEK_MS,
        ReviewInterval::OneMonth => 4 * WEEK_MS,
        ReviewInterval::ThreeMonths => 12 * WEEK_MS,
        ReviewInterval::SixMonths => 24 * WEEK_MS,
        ReviewInterval::OneYear => 52 * WEEK_MS,
    }
}

/// The rung above `r`; the last rung is its own successor.
pub open spec fn next_rung(r: ReviewInterval) -> ReviewInterval {
    match r {
        ReviewInterval::ThreeHours => ReviewInterval::OneDay,
        ReviewInterval::OneDay => ReviewInterval::ThreeDays,
        ReviewInterval::ThreeDays => ReviewInterval::OneWeek,
        ReviewInterval::OneWeek => ReviewInterval::TwoWeeks,
        ReviewInterval::TwoWeeks => ReviewInterval::OneMonth,
        ReviewInterval::OneMonth => ReviewInterval::ThreeMonths,
        ReviewInterval::ThreeMonths => ReviewInterval::SixMonths,
        ReviewInterval::SixMonths => ReviewInterval::OneYear,
        ReviewInterval::OneYear => ReviewInterval::OneYear,
    }
}

/// The rung reached from `r` by `k` steps up the ladder.
pub open spec fn climb(r: ReviewInterval, k: nat) -> ReviewInterval
    decreases k,
{
    if k == 0 {
        r
    } else {
        next_rung(climb(r, (k - 1) as nat))
    }
}

impl ReviewInterval {
    /// The interval of this rung, in milliseconds.
    pub fn duration(&self) -> (d: i64)
        ensures
            d == interval_ms(*self),
            0 < d <= LONGEST_INTERVAL_MS,
    {
        match self {
            ReviewInterval::ThreeHours => 3 * HOUR_MS,
            ReviewInterval::OneDay => DAY_MS,
            ReviewInterval::ThreeDays => 3 * DAY_MS,
            ReviewInterval::OneWeek => WEEK_MS,
            ReviewInterval::TwoWeeks => 2 * WEEK_MS,
            ReviewInterval::OneMonth => 4 * WEEK_MS,
            ReviewInterval::ThreeMonths => 12 * WEEK_MS,
            ReviewInterval::SixMonths => 24 * WEEK_MS,
            ReviewInterval::OneYear => 52 * WEEK_MS,
        }
    }

    /// The rung above this one, or this one if it is the last.
    pub fn next_dur(&mut self) -> (r: ReviewInterval)
        ensures
            r == next_rung(*old(self)),
            *final(self) == *old(self),
    {
        match self {
            ReviewInterval::ThreeHours => ReviewInterval::OneDay,
            ReviewInterval::OneDay => ReviewInterval::ThreeDays,
            ReviewInterval::ThreeDays => ReviewInterval::OneWeek,
            ReviewInterval::OneWeek => ReviewInterval::TwoWeeks,
            ReviewInterval::TwoWeeks => ReviewInterval::OneMonth,
            ReviewInterval::OneMonth => ReviewInterval::ThreeMonths,
            ReviewInterval::ThreeMonths => ReviewInterval::SixMonths,
            ReviewInterval::SixMonths => ReviewInterval::OneYear,
            ReviewInterval::OneYear => ReviewInterval::OneYear,
        }
    }
}

/// Each step up the ladder moves one rung, up to the last, and the
/// intervals grow strictly on the way.
pub proof fn lemma_next_rung(r: ReviewInterval)
    ensures
        rung(r) < 8 ==> rung(next_rung(r)) == rung(r) + 1,
        rung(r) < 8 ==> interval_ms(r) < interval_ms(next_rung(r)),
        rung(r) == 8 ==> next_rung(r) == r,
        rung(r) <= 8,
{
}

/// Climbing the ladder clamps at its last rung: `k` steps from `r` reach
/// rung `min(rung(r) + k, 8)`, and never wrap around or fail.
pub proof fn lemma_climb_clamps(r: ReviewInterval, k: nat)
    ensures
        rung(climb(r, k)) == if rung(r) + k <= 8 { rung(r) + k } else { 8 },
    decreases k,
{
    if k > 0 {
        lemma_climb_clamps(r, (k - 1) as nat);
        lemma_next_rung(climb(r, (k - 1) as nat));
    }
}

/// Relies on `std::time::SystemTime::now`, chrono's
/// `From<SystemTime> for DateTime<Utc>` and `DateTime::timestamp_millis`:
/// the current time in milliseconds since the Unix epoch, negative for a
/// clock set before it. The conversion fails only for a clock outside
/// chrono's dates (about 262,000 years either side of year 0), and those
/// dates end far below the bound stated here.
#[verifier::external_body]
pub(crate) fn now_millis() -> (t: i64)
    ensures
        t <= LATEST_REVIEW_TIME,
{
    chrono::DateTime::<chrono::Utc>::from(std::time::SystemTime::now()).timestamp_millis()
}

} // verus!
