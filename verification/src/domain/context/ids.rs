//! Ids in the order in which they were first seen, each with its place at
//! hand.
use crate::domain::context::model::index_of;
use std::collections::HashMap;
use vstd::prelude::*;

verus! {

broadcast use vstd::std_specs::hash::group_hash_axioms;

/// A list of ids without repetition that finds the place of an id without
/// going through the list.
pub struct IdTable {
    ids: Vec<usize>,
    places: HashMap<usize, usize>,
}

impl View for IdTable {
    type V = Seq<usize>;

    closed spec fn view(&self) -> Seq<usize> {
        self.ids@
    }
}

impl IdTable {
    /// No id occurs twice, and the place at hand for an id is where the id
    /// stands in the list.
    pub closed spec fn wf(&self) -> bool {
        &&& self.ids@.no_duplicates()
        &&& forall|id: usize| #[trigger] self.places@.contains_key(id) <==> self.ids@.contains(id)
        &&& forall|id: usize| #[trigger]
            self.places@.contains_key(id) ==> self.places@[id] < self.ids@.len()
                && self.ids@[self.places@[id] as int] == id
    }

    /// A list without ids.
    pub fn new() -> (r: Self)
        ensures
            r.wf(),
            r@ == Seq::<usize>::empty(),
    {
        IdTable { ids: Vec::new(), places: HashMap::new() }
    }

    /// How many ids the list holds.
    pub fn len(&self) -> (r: usize)
        ensures
            r == self@.len(),
    {
        self.ids.len()
    }

    /// The id at the given place.
    pub fn get(&self, i: usize) -> (r: usize)
        requires
            i < self@.len(),
        ensures
            r == self@[i as int],
    {
        self.ids[i]
    }

    /// The place of `id` in the list, if it is there.
    pub fn find(&self, id: usize) -> (r: Option<usize>)
        requires
            self.wf(),
        ensures
            match r {
                Some(i) => i < self@.len() && self@[i as int] == id && index_of(self@, id) == Some(
                    i as int,
                ),
                None => !self@.contains(id) && index_of(self@, id) is None,
            },
    {
        proof {
            self.ids@.index_of_first_ensures(id);
        }
        match self.places.get(&id) {
            Some(i) => {
                let i = *i;
                assert(self.ids@[i as int] == id);
                assert(self.ids@.contains(id));
                Some(i)
            },
            None => None,
        }
    }

    /// Puts an id that is not in the list at its end.
    pub fn push(&mut self, id: usize)
        requires
            old(self).wf(),
            !old(self)@.contains(id),
        ensures
            final(self).wf(),
            final(self)@ == old(self)@.push(id),
    {
        let n = self.ids.len();
        self.ids.push(id);
        self.places.insert(id, n);
        proof {
            assert forall|x: usize| #[trigger]
                self.places@.contains_key(x) <==> self.ids@.contains(x) by {
                if x == id {
                    assert(self.ids@[n as int] == id);
                } else if old(self).ids@.contains(x) {
                    let k = choose|k: int| 0 <= k < old(self).ids@.len() && old(self).ids@[k] == x;
                    assert(self.ids@[k] == x);
                } else if self.ids@.contains(x) {
                    let k = choose|k: int| 0 <= k < self.ids@.len() && self.ids@[k] == x;
                    assert(old(self).ids@[k] == x);
                }
            }
        }
    }
}

} // verus!
