//! Plain data around the fuzzy matcher; the matcher itself is an external
//! collaborator and runs outside the library.

use vstd::prelude::*;

verus! {

/// An entry the fuzzy matcher can rank: a key it matches on and the data
/// it carries.
pub trait FuzzyItem {
    fn key(&self) -> Vec<u8>;

    fn data(&self) -> Vec<u8>;
}

/// State of a fuzzy search after one tick of the matcher.
#[derive(Clone, Copy, Debug, PartialEq, Eq, Structural)]
pub enum FuzzyStatus {
    /// The matcher is running and the results did not change.
    Stale,
    /// The matcher is running and the results changed.
    Updated,
    /// The matcher is done.
    Finished,
}

impl FuzzyStatus {
    /// Classify one matcher tick from whether it is still running and
    /// whether the results changed.
    pub fn from_flags(running: bool, changed: bool) -> (r: FuzzyStatus)
        ensures
            !running ==> r == FuzzyStatus::Finished,
            running && changed ==> r == FuzzyStatus::Updated,
            running && !changed ==> r == FuzzyStatus::Stale,
    {
        if !running {
            FuzzyStatus::Finished
        } else if changed {
            FuzzyStatus::Updated
        } else {
            FuzzyStatus::Stale
        }
    }
}

impl FuzzyItem for crate::cards::CardInfo {
    fn key(&self) -> Vec<u8> {
        self.name.clone()
    }

    fn data(&self) -> Vec<u8> {
        self.id.clone()
    }
}

} // verus!
