//! Plain data handed to the spaced-repetition scheduler; the scheduling
//! math itself is an external collaborator.

use vstd::prelude::*;

verus! {

/// One past review as the scheduler consumes it: a rating from 1 to 4 and
/// the days elapsed since the review before it.
pub struct SchedulerReview {
    pub rating: u32,
    pub delta_t: u32,
}

/// The full review history of one card, oldest first.
pub struct SchedulerItem(pub Vec<SchedulerReview>);

} // verus!
