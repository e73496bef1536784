//! Review history bookkeeping: converting stored reviews into scheduler
//! items and summarizing finished sessions.

use vstd::prelude::*;

use crate::cards::Rating;
use crate::scheduler::{SchedulerItem, SchedulerReview};

verus! {

/// Seconds in a day.
pub open spec fn day_seconds() -> int {
    86400
}

/// One recorded review of a card.
#[derive(Clone, Copy)]
pub struct CardReview {
    pub timestamp: i64,
    pub rating: Rating,
}

impl CardReview {
    /// The review as the scheduler sees it, relative to the review before
    /// it: its rating moved to the 1-to-4 scale, and the elapsed whole
    /// days.
    pub fn to_fsrs_review(self, prev: i64) -> (r: SchedulerReview)
        requires
            prev <= self.timestamp,
            (self.timestamp - prev) / day_seconds() <= u32::MAX,
        ensures
            r.rating == self.rating.score_spec() + 1,
            r.delta_t == (self.timestamp - prev) / day_seconds(),
    {
        SchedulerReview {
            rating: self.rating.score() + 1,
            delta_t: ((self.timestamp - prev) / (24 * 60 * 60)) as u32,
        }
    }
}

/// The timestamp each review is measured against: the first review is
/// measured against itself, every later one against its predecessor.
pub open spec fn prev_ts(reviews: Seq<CardReview>, i: int) -> int {
    if i == 0 {
        if reviews.len() > 0 {
            reviews[0].timestamp as int
        } else {
            0
        }
    } else {
        reviews[i - 1].timestamp as int
    }
}

/// Build the scheduler item for a card from its recorded reviews, oldest
/// first.
pub fn item_from_reviews(reviews: &Vec<CardReview>) -> (r: SchedulerItem)
    requires
        forall|i: int|
            0 <= i < reviews@.len() ==> prev_ts(reviews@, i) <= (#[trigger] reviews@[i]).timestamp
                && (reviews@[i].timestamp - prev_ts(reviews@, i)) / day_seconds() <= u32::MAX,
    ensures
        r.0@.len() == reviews@.len(),
        forall|i: int|
            0 <= i < reviews@.len() ==> (#[trigger] r.0@[i]).rating == reviews@[
            i].rating.score_spec() + 1 && r.0@[i].delta_t == (reviews@[i].timestamp - prev_ts(
                reviews@,
                i,
            )) / day_seconds(),
{
    let n = reviews.len();
    let mut out: Vec<SchedulerReview> = Vec::new();
    let mut prev: i64 = if n > 0 {
        reviews[0].timestamp
    } else {
        0
    };
    let mut i: usize = 0;
    while i < n
        invariant
            n == reviews@.len(),
            i <= n,
            out@.len() == i,
            prev == prev_ts(reviews@, i as int) || (i == n && n > 0),
            forall|m: int|
                0 <= m < reviews@.len() ==> prev_ts(reviews@, m) <= (
                #[trigger] reviews@[m]).timestamp && (reviews@[m].timestamp - prev_ts(reviews@, m))
                    / day_seconds() <= u32::MAX,
            forall|m: int|
                0 <= m < i ==> (#[trigger] out@[m]).rating == reviews@[m].rating.score_spec() + 1
                    && out@[m].delta_t == (reviews@[m].timestamp - prev_ts(reviews@, m))
                    / day_seconds(),
        decreases n - i,
    {
        let rev = reviews[i];
        out.push(rev.to_fsrs_review(prev));
        prev = rev.timestamp;
        i += 1;
    }
    SchedulerItem(out)
}

/// Sum of the numeric scores of the ratings.
pub open spec fn score_sum(ratings: Seq<Rating>) -> int
    decreases ratings.len(),
{
    if ratings.len() == 0 {
        0
    } else {
        score_sum(ratings.drop_last()) + ratings.last().score_spec()
    }
}

pub proof fn lemma_score_sum_bounds(ratings: Seq<Rating>)
    ensures
        0 <= score_sum(ratings) <= 3 * ratings.len(),
    decreases ratings.len(),
{
    if ratings.len() > 0 {
        lemma_score_sum_bounds(ratings.drop_last());
    }
}

/// A finished study session.
#[derive(Clone, Copy)]
pub struct Session {
    pub timestamp: i64,
    /// Number of cards answered.
    pub size: u16,
    /// Percentage of the best possible score, on the four-point scale.
    pub score: u8,
}

impl Session {
    /// Summarize a finished session from the ratings given, in order.
    pub fn from_answers(timestamp: i64, ratings: &Vec<Rating>) -> (r: Session)
        requires
            0 < ratings@.len() <= u16::MAX,
        ensures
            r.timestamp == timestamp,
            r.size == ratings@.len(),
            r.score == score_sum(ratings@) * 100 / 4 / (ratings@.len() as int),
    {
        let n = ratings.len();
        let mut sum: u32 = 0;
        let mut i: usize = 0;
        proof {
            assert(ratings@.take(0) =~= Seq::<Rating>::empty());
        }
        while i < n
            invariant
                n == ratings@.len(),
                0 < n <= u16::MAX,
                i <= n,
                sum == score_sum(ratings@.take(i as int)),
                sum <= 3 * i,
            decreases n - i,
        {
            let ghost pre = sum;
            sum = sum + ratings[i].score();
            proof {
                assert(ratings@.take(i + 1).drop_last() =~= ratings@.take(i as int));
                assert(ratings@.take(i + 1).last() == ratings@[i as int]);
            }
            i += 1;
        }
        proof {
            assert(ratings@.take(n as int) =~= ratings@);
            lemma_score_sum_bounds(ratings@);
            assert((sum as int) * 100 / 4 / (n as int) <= 75) by (nonlinear_arith)
                requires
                    0 < (n as int) <= 65535,
                    (sum as int) <= 3 * (n as int),
            ;
        }
        let score = (sum * 100 / 4 / (n as u32)) as u8;
        Session { timestamp, size: n as u16, score }
    }
}

} // verus!
