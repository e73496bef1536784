//! Study sessions and the store that owns them.

use vstd::prelude::*;

use crate::cards::{CardInfo, Rating};

verus! {

/// The mutable state of a study: its display name, the ratings given so
/// far keyed by card id, and whether it is finished.
pub struct StudyState {
    pub name: String,
    pub ratings: Vec<(Vec<u8>, Rating)>,
    pub finished: bool,
}

/// One study: a stable id, its creation timestamp, the selected cards and
/// the mutable state.  Id, timestamp and selection never change once the
/// study exists.
pub struct Study {
    pub id: u64,
    pub timestamp: u64,
    pub selection: Vec<CardInfo>,
    pub state: StudyState,
}

impl Study {
    pub fn new(id: u64, timestamp: u64, selection: Vec<CardInfo>, state: StudyState) -> (r: Study)
        ensures
            r.id == id,
            r.timestamp == timestamp,
            r.selection@ == selection@,
            r.state == state,
    {
        Study { id, timestamp, selection, state }
    }

    /// Give the study a new display name.
    pub fn rename(&mut self, name: String)
        ensures
            final(self).state.name@ == name@,
            final(self).state.ratings == old(self).state.ratings,
            final(self).state.finished == old(self).state.finished,
            final(self).id == old(self).id,
            final(self).timestamp == old(self).timestamp,
            final(self).selection == old(self).selection,
    {
        self.state.name = name;
    }

    /// Record (or overwrite) the rating of a card.
    pub fn update(&mut self, rating: Rating, card_id: Vec<u8>)
        ensures
            final(self).id == old(self).id,
            final(self).timestamp == old(self).timestamp,
            final(self).selection == old(self).selection,
            final(self).state.name == old(self).state.name,
            final(self).state.finished == old(self).state.finished,
            exists|m: int|
                0 <= m < final(self).state.ratings@.len() && (#[trigger] final(self).state.ratings@[m]).0@
                    == card_id@ && final(self).state.ratings@[m].1 == rating,
    {
        let n = self.state.ratings.len();
        let mut i: usize = 0;
        while i < n
            invariant
                n == self.state.ratings@.len(),
                i <= n,
                *self == *old(self),
            decreases n - i,
        {
            if crate::bytes::bytes_eq(&self.state.ratings[i].0, &card_id) {
                let entry = &mut self.state.ratings[i];
                *entry = (card_id, rating);
                proof {
                    assert(final(self).state.ratings@[i as int].0@ == card_id@);
                }
                return ;
            }
            i += 1;
        }
        self.state.ratings.push((card_id, rating));
        proof {
            assert(final(self).state.ratings@[final(self).state.ratings@.len() - 1].0@
                == card_id@);
        }
    }

    /// Mark the study finished.
    pub fn finalize(&mut self)
        ensures
            final(self).state.finished,
            final(self).state.name == old(self).state.name,
            final(self).state.ratings == old(self).state.ratings,
            final(self).id == old(self).id,
            final(self).timestamp == old(self).timestamp,
            final(self).selection == old(self).selection,
    {
        self.state.finished = true;
    }
}

/// The owned studies and the last handed-out id; zero means the id counter
/// was never set.
pub struct StudyStore {
    pub studies: Vec<Study>,
    pub last: u64,
}

impl StudyStore {
    /// Study ids are unique.
    pub open spec fn wf(self) -> bool {
        forall|i: int, j: int|
            0 <= i < j < self.studies@.len() ==> self.studies@[i].id != self.studies@[j].id
    }

    /// Some study carries the id.
    pub open spec fn has_study(self, id: u64) -> bool {
        exists|i: int| 0 <= i < self.studies@.len() && (#[trigger] self.studies@[i]).id == id
    }

    /// An empty store with the id counter unset.
    pub fn new() -> (r: StudyStore)
        ensures
            r.wf(),
            r.studies@.len() == 0,
            r.last == 0,
    {
        StudyStore { studies: Vec::new(), last: 0 }
    }

    /// The last handed-out id, if the counter was ever set.
    pub fn last_id(&self) -> (r: Option<u64>)
        ensures
            (match r {
                Some(v) => self.last != 0 && v == self.last,
                None => self.last == 0,
            }),
    {
        if self.last != 0 {
            Some(self.last)
        } else {
            None
        }
    }

    /// Set the id counter.
    pub fn set_last_id(&mut self, value: u64)
        ensures
            final(self).last == value,
            final(self).studies == old(self).studies,
    {
        self.last = value;
    }

    /// All owned studies.
    pub fn studies(&self) -> (r: &Vec<Study>)
        ensures
            r == &self.studies,
    {
        &self.studies
    }

    fn find_study(&self, id: u64) -> (r: Option<usize>)
        ensures
            (match r {
                Some(i) => (i as int) < self.studies@.len() && self.studies@[i as int].id == id,
                None => !self.has_study(id),
            }),
    {
        let n = self.studies.len();
        let mut i: usize = 0;
        while i < n
            invariant
                n == self.studies@.len(),
                i <= n,
                forall|m: int| 0 <= m < i ==> (#[trigger] self.studies@[m]).id != id,
            decreases n - i,
        {
            if self.studies[i].id == id {
                return Some(i);
            }
            i += 1;
        }
        None
    }

    /// Remove and return the study with the id, if present.
    pub fn delete_study(&mut self, id: u64) -> (r: Option<Study>)
        requires
            old(self).wf(),
        ensures
            final(self).wf(),
            final(self).last == old(self).last,
            !final(self).has_study(id),
            (match r {
                Some(st) => st.id == id && old(self).has_study(id),
                None => !old(self).has_study(id) && final(self).studies == old(self).studies,
            }),
            forall|id2: u64|
                id2 != id ==> ((#[trigger] final(self).has_study(id2)) <==> old(self).has_study(
                    id2,
                )),
    {
        match self.find_study(id) {
            None => {
                proof {
                    assert forall|id2: u64| id2 != id implies ((#[trigger] self.has_study(id2))
                        <==> old(self).has_study(id2)) by {}
                }
                None
            },
            Some(i) => {
                let ghost pre = self.studies@;
                let st = self.studies.remove(i);
                proof {
                    assert(st.id == id);
                    assert forall|m: int|
                        0 <= m < self.studies@.len() implies (#[trigger] self.studies@[m]).id
                        != id by {
                        if m < i {
                            assert(self.studies@[m] == pre[m]);
                            assert(pre[m].id != pre[i as int].id);
                        } else {
                            assert(self.studies@[m] == pre[m + 1]);
                            assert(pre[i as int].id != pre[m + 1].id);
                        }
                    }
                    assert forall|a: int, b: int|
                        0 <= a < b < self.studies@.len() implies self.studies@[a].id
                        != self.studies@[b].id by {
                        let pa: int = if a < i {
                            a
                        } else {
                            a + 1
                        };
                        let pb: int = if b < i {
                            b
                        } else {
                            b + 1
                        };
                        assert(self.studies@[a] == pre[pa]);
                        assert(self.studies@[b] == pre[pb]);
                    }
                    assert forall|id2: u64| id2 != id implies ((#[trigger] self.has_study(id2))
                        <==> old(self).has_study(id2)) by {
                        if self.has_study(id2) {
                            let m = choose|m: int|
                                0 <= m < self.studies@.len() && (#[trigger] self.studies@[m]).id
                                    == id2;
                            if m < i {
                                assert(pre[m].id == id2);
                            } else {
                                assert(pre[m + 1].id == id2);
                            }
                        }
                        if old(self).has_study(id2) {
                            let m = choose|m: int|
                                0 <= m < pre.len() && (#[trigger] pre[m]).id == id2;
                            if m < i {
                                assert(self.studies@[m].id == id2);
                            } else if m > i {
                                assert(self.studies@[m - 1].id == id2);
                            }
                        }
                    }
                }
                Some(st)
            },
        }
    }

    /// Load a study from persisted data: an unknown id is inserted as
    /// given; a known id keeps its immutable fields and only takes the
    /// given state.  Gives the slot of the study.
    pub fn load_study(
        &mut self,
        id: u64,
        timestamp: u64,
        selection: Vec<CardInfo>,
        state: StudyState,
    ) -> (slot: usize)
        requires
            old(self).wf(),
            old(self).studies@.len() < usize::MAX,
        ensures
            final(self).wf(),
            final(self).last == old(self).last,
            (slot as int) < final(self).studies@.len(),
            final(self).studies@[slot as int].id == id,
            final(self).studies@[slot as int].state == state,
            old(self).has_study(id) ==> exists|m: int|
                0 <= m < old(self).studies@.len() && (#[trigger] old(self).studies@[m]).id == id
                    && final(self).studies@[slot as int].timestamp == old(
                    self,
                ).studies@[m].timestamp && final(self).studies@[slot as int].selection == old(
                    self,
                ).studies@[m].selection,
            !old(self).has_study(id) ==> final(self).studies@[slot as int].timestamp == timestamp
                && final(self).studies@[slot as int].selection@ == selection@,
            forall|id2: u64| #[trigger]
                final(self).has_study(id2) <==> old(self).has_study(id2) || id2 == id,
    {
        match self.find_study(id) {
            Some(i) => {
                let ghost pre = self.studies@;
                let st = &mut self.studies[i];
                st.state = state;
                proof {
                    assert(self.studies@[i as int].id == id);
                    assert forall|a: int, b: int|
                        0 <= a < b < self.studies@.len() implies self.studies@[a].id
                        != self.studies@[b].id by {
                        assert(self.studies@[a].id == pre[a].id);
                        assert(self.studies@[b].id == pre[b].id);
                    }
                    assert forall|id2: u64| #[trigger]
                        self.has_study(id2) <==> old(self).has_study(id2) || id2 == id by {
                        if self.has_study(id2) {
                            let m = choose|m: int|
                                0 <= m < self.studies@.len() && (#[trigger] self.studies@[m]).id
                                    == id2;
                            assert(pre[m].id == id2);
                        }
                        if old(self).has_study(id2) {
                            let m = choose|m: int|
                                0 <= m < pre.len() && (#[trigger] pre[m]).id == id2;
                            assert(self.studies@[m].id == id2);
                        }
                    }
                }
                i
            },
            None => {
                let slot = self.studies.len();
                let ghost pre = self.studies@;
                self.studies.push(Study { id, timestamp, selection, state });
                proof {
                    assert forall|a: int, b: int|
                        0 <= a < b < self.studies@.len() implies self.studies@[a].id
                        != self.studies@[b].id by {
                        if b < pre.len() {
                            assert(self.studies@[a] == pre[a]);
                            assert(self.studies@[b] == pre[b]);
                        } else {
                            assert(self.studies@[b].id == id);
                            assert(self.studies@[a] == pre[a]);
                            if pre[a].id == id {
                                assert(old(self).has_study(id));
                            }
                        }
                    }
                    assert forall|id2: u64| #[trigger]
                        self.has_study(id2) <==> old(self).has_study(id2) || id2 == id by {
                        if self.has_study(id2) {
                            let m = choose|m: int|
                                0 <= m < self.studies@.len() && (#[trigger] self.studies@[m]).id
                                    == id2;
                            if m < pre.len() {
                                assert(pre[m].id == id2);
                            }
                        }
                        if old(self).has_study(id2) {
                            let m = choose|m: int|
                                0 <= m < pre.len() && (#[trigger] pre[m]).id == id2;
                            assert(self.studies@[m].id == id2);
                        }
                        if id2 == id {
                            assert(self.studies@[slot as int].id == id);
                        }
                    }
                }
                slot
            },
        }
    }

    /// Create a fresh study: the id counter hands out its current value
    /// and moves on.  The caller supplies the clock reading.
    pub fn new_study(&mut self, name: String, selection: Vec<CardInfo>, timestamp: u64) -> (slot:
        usize)
        requires
            old(self).wf(),
            old(self).last != 0,
            old(self).last < u64::MAX,
            old(self).studies@.len() < usize::MAX,
        ensures
            final(self).wf(),
            final(self).last == old(self).last + 1,
            (slot as int) < final(self).studies@.len(),
            final(self).studies@[slot as int].id == old(self).last,
            final(self).studies@[slot as int].state.name@ == name@,
            final(self).studies@[slot as int].state.ratings@.len() == 0,
            !final(self).studies@[slot as int].state.finished,
            !old(self).has_study(old(self).last) ==> final(self).studies@[slot
                as int].timestamp == timestamp && final(self).studies@[slot as int].selection@
                == selection@,
    {
        let id = self.last;
        self.last = id + 1;
        let state = StudyState { name, ratings: Vec::new(), finished: false };
        self.load_study(id, timestamp, selection, state)
    }
}

} // verus!
