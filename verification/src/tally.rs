use crate::identifier::faithful_key;
use crate::model::distinct_ids;
use crate::model::holds_id;
use crate::ranking::ranking_view;
use crate::score::Score;
use std::collections::HashMap;
use std::hash::Hash;
use vstd::prelude::*;

verus! {

/// The scores added up so far: one entry for each identifier that was credited, in the
/// order in which the identifiers were first credited. A hash map from each identifier
/// to the place of its entry finds the entry to add to.
pub struct Tally<T> {
    index: HashMap<T, usize>,
    entries: Vec<(T, Score)>,
}

impl<T: Clone + Eq + Hash> View for Tally<T> {
    type V = Seq<(T, real)>;

    closed spec fn view(&self) -> Seq<(T, real)> {
        ranking_view(self.entries@)
    }
}

impl<T: Clone + Eq + Hash> Tally<T> {
    /// Whether the map holds the place of each entry, and nothing else.
    pub closed spec fn well_formed(&self) -> bool {
        &&& forall|j: int|
            0 <= j < self.entries@.len() ==> self.index@.contains_key(
                (#[trigger] self.entries@[j]).0,
            ) && self.index@[self.entries@[j].0] == j
        &&& forall|id: T| #[trigger]
            self.index@.contains_key(id) ==> self.index@[id] < self.entries@.len()
                && self.entries@[self.index@[id] as int].0 == id
    }

    /// A tally has one entry for an identifier at most.
    pub proof fn lemma_ids_are_distinct(&self)
        requires
            self.well_formed(),
        ensures
            distinct_ids(self@),
    {
        assert forall|i: int, j: int| 0 <= i < j < self@.len() implies (#[trigger] self@[i]).0 != (
        #[trigger] self@[j]).0 by {
            assert(self.index@[self.entries@[i].0] == i);
            assert(self.index@[self.entries@[j].0] == j);
        }
    }

    /// The tally without entries.
    pub fn new() -> (r: Tally<T>)
        ensures
            r.well_formed(),
            r@ == Seq::<(T, real)>::empty(),
    {
        let r = Tally { index: HashMap::new(), entries: Vec::new() };
        proof {
            assert(r@ =~= Seq::<(T, real)>::empty());
        }
        r
    }

    /// Adds `share` to the score of `id`, with a new entry at the end where `id` has
    /// none yet.
    pub fn credit(&mut self, id: &T, share: Score)
        requires
            faithful_key::<T>(),
            old(self).well_formed(),
        ensures
            final(self).well_formed(),
            forall|j: int|
                0 <= j < old(self)@.len() && (#[trigger] old(self)@[j]).0 == *id ==> final(self)@
                    == old(self)@.update(j, (*id, old(self)@[j].1 + share@)),
            !holds_id(old(self)@, *id) ==> final(self)@ == old(self)@.push((*id, share@)),
    {
        broadcast use vstd::std_specs::hash::group_hash_axioms;

        let ghost before = self.entries@;
        let found: Option<usize> = match self.index.get(id) {
            Some(at) => Some(*at),
            None => None,
        };
        match found {
            Some(at) => {
                let sum: Score = self.entries[at].1.add(&share);
                self.entries[at].1 = sum;
                proof {
                    assert forall|j: int|
                        0 <= j < before.len() && (#[trigger] ranking_view(before)[j]).0
                            == *id implies ranking_view(self.entries@) == ranking_view(
                        before,
                    ).update(j, (*id, ranking_view(before)[j].1 + share@)) by {
                        assert(self.index@[before[j].0] == j);
                        assert(ranking_view(self.entries@) =~= ranking_view(before).update(
                            j,
                            (*id, ranking_view(before)[j].1 + share@),
                        ));
                    }
                    assert(holds_id(ranking_view(before), *id)) by {
                        assert(ranking_view(before)[at as int].0 == *id);
                    }
                }
            },
            None => {
                let key: T = id.clone();
                let owned: T = id.clone();
                proof {
                    assert(cloned(*id, key));
                    assert(cloned(*id, owned));
                }
                self.index.insert(key, self.entries.len());
                self.entries.push((owned, share));
                proof {
                    assert(ranking_view(self.entries@) =~= ranking_view(before).push(
                        (*id, share@),
                    ));
                    assert forall|j: int| 0 <= j < before.len() implies (#[trigger] ranking_view(
                        before,
                    )[j]).0 != *id by {
                        assert(before[j].0 != *id);
                    }
                }
            },
        }
    }

    /// The entries of the tally.
    pub fn into_entries(self) -> (entries: Vec<(T, Score)>)
        ensures
            ranking_view(entries@) == self@,
    {
        self.entries
    }
}

} // verus!
