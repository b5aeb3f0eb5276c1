//! A map keyed by ticket id, holding each id at most once.
use vstd::prelude::*;

use crate::domain::TicketId;

verus! {

/// A map from ticket ids (compared by their text) to values. Inserting an id
/// that is already present replaces its value; the ids keep the order in
/// which they were first inserted.
pub struct IdMap<V> {
    keys: Vec<TicketId>,
    vals: Vec<V>,
}

impl<V> IdMap<V> {
    /// The texts of the ids, in insertion order.
    pub closed spec fn key_seq(&self) -> Seq<Seq<char>> {
        Seq::new(self.keys@.len(), |i: int| self.keys@[i]@)
    }

    /// The values, in the order of their ids.
    pub closed spec fn val_seq(&self) -> Seq<V> {
        self.vals@
    }

    /// The map itself: each id's text to its value.
    pub closed spec fn map(&self) -> Map<Seq<char>, V> {
        Map::new(
            |k: Seq<char>| self.key_seq().contains(k),
            |k: Seq<char>| self.vals@[self.key_seq().index_of(k)],
        )
    }

    /// Each id is held once, with one value.
    pub closed spec fn wf(&self) -> bool {
        &&& self.keys@.len() == self.vals@.len()
        &&& self.key_seq().no_duplicates()
    }

    /// The empty map.
    pub fn new() -> (r: IdMap<V>)
        ensures
            r.wf(),
            r.map() == Map::<Seq<char>, V>::empty(),
            r.key_seq() == Seq::<Seq<char>>::empty(),
    {
        let r = IdMap { keys: Vec::new(), vals: Vec::new() };
        assert(r.key_seq() =~= Seq::<Seq<char>>::empty());
        assert(r.map() =~= Map::<Seq<char>, V>::empty());
        r
    }

    /// Number of ids in the map.
    pub fn len(&self) -> (n: usize)
        requires
            self.wf(),
        ensures
            n == self.key_seq().len(),
    {
        self.keys.len()
    }

    /// The position of `id` among the keys, if present.
    pub(crate) fn position(&self, id: &TicketId) -> (r: Option<usize>)
        requires
            self.wf(),
        ensures
            match r {
                Some(i) => i < self.key_seq().len() && self.key_seq()[i as int] == id@
                    && self.key_seq().index_of(id@) == i,
                None => !self.key_seq().contains(id@),
            },
    {
        let mut i: usize = 0;
        while i < self.keys.len()
            invariant
                self.wf(),
                i <= self.keys.len(),
                forall|j: int| 0 <= j < i ==> self.key_seq()[j] != id@,
            decreases self.keys.len() - i,
        {
            if self.keys[i].same(id) {
                proof {
                    assert(self.key_seq()[i as int] == id@);
                    assert(self.key_seq().contains(id@));
                    let k = self.key_seq().index_of(id@);
                    assert(self.key_seq()[k] == id@);
                }
                return Some(i);
            }
            i = i + 1;
        }
        None
    }

    /// Whether `id` is present.
    pub fn contains_key(&self, id: &TicketId) -> (r: bool)
        requires
            self.wf(),
        ensures
            r == self.map().dom().contains(id@),
    {
        match self.position(id) {
            Some(_) => true,
            None => false,
        }
    }

    /// The value held for `id`, if any.
    pub fn get(&self, id: &TicketId) -> (r: Option<&V>)
        requires
            self.wf(),
        ensures
            match r {
                Some(v) => self.map().dom().contains(id@) && *v == self.map()[id@],
                None => !self.map().dom().contains(id@),
            },
    {
        match self.position(id) {
            Some(i) => Some(&self.vals[i]),
            None => None,
        }
    }

    /// The id at position `i` in insertion order.
    pub fn key_at(&self, i: usize) -> (r: &TicketId)
        requires
            self.wf(),
            i < self.key_seq().len(),
        ensures
            r@ == self.key_seq()[i as int],
    {
        &self.keys[i]
    }

    /// The value at position `i` in insertion order.
    pub fn value_at(&self, i: usize) -> (r: &V)
        requires
            self.wf(),
            i < self.key_seq().len(),
        ensures
            *r == self.val_seq()[i as int],
            self.map()[self.key_seq()[i as int]] == *r,
    {
        proof {
            self.key_seq().index_of_first_ensures(self.key_seq()[i as int]);
            assert(self.key_seq().contains(self.key_seq()[i as int]));
        }
        &self.vals[i]
    }

    /// Every listed id is a key of the map.
    pub proof fn lemma_key_in_map(&self, j: int)
        requires
            0 <= j < self.key_seq().len(),
        ensures
            self.map().dom().contains(self.key_seq()[j]),
    {
        assert(self.key_seq().contains(self.key_seq()[j]));
    }

    /// Every key of the map is listed at some position.
    pub proof fn lemma_map_key_listed(&self, k: Seq<char>)
        requires
            self.map().dom().contains(k),
        ensures
            exists|j: int| 0 <= j < self.key_seq().len() && self.key_seq()[j] == k,
    {
    }

    /// A well-formed map lists each id once.
    pub proof fn lemma_keys_distinct(&self)
        requires
            self.wf(),
        ensures
            self.key_seq().no_duplicates(),
    {
    }

    /// Sets `id` to `value`, replacing any earlier value for it.
    pub fn insert(&mut self, id: TicketId, value: V)
        requires
            old(self).wf(),
        ensures
            final(self).wf(),
            final(self).map() == old(self).map().insert(id@, value),
            old(self).key_seq().contains(id@) ==> final(self).key_seq() == old(self).key_seq(),
            !old(self).key_seq().contains(id@) ==> final(self).key_seq() == old(self).key_seq().push(
                id@,
            ),
    {
        match self.position(&id) {
            Some(i) => {
                let ghost ks = self.key_seq();
                self.vals.set(i, value);
                proof {
                    assert(self.key_seq() =~= ks);
                    assert forall|k: Seq<char>| #[trigger] self.map().dom().contains(k)
                        implies self.map()[k] == old(self).map().insert(id@, value)[k] by {
                        if k != id@ {
                            ks.index_of_first_ensures(k);
                        }
                    }
                    assert(self.map() =~= old(self).map().insert(id@, value));
                }
            },
            None => {
                let ghost ks = self.key_seq();
                let ghost idv = id@;
                self.keys.push(id);
                self.vals.push(value);
                proof {
                    assert(self.key_seq() =~= ks.push(idv));
                    assert forall|a: int, b: int|
                        0 <= a < b < self.key_seq().len() implies self.key_seq()[a]
                        != self.key_seq()[b] by {
                        if b == ks.len() {
                            assert(ks.contains(ks[a]));
                        }
                    }
                    assert forall|k: Seq<char>| #[trigger] self.map().dom().contains(k)
                        implies self.map()[k] == old(self).map().insert(idv, value)[k] by {
                        self.key_seq().index_of_first_ensures(k);
                        if k != idv {
                            ks.index_of_first_ensures(k);
                            let j = self.key_seq().index_of(k);
                            assert(j < ks.len());
                            assert(ks[j] == k);
                            if ks.index_of(k) != j {
                                assert(self.key_seq()[ks.index_of(k)] == k);
                            }
                        } else {
                            let j = self.key_seq().index_of(k);
                            if j != ks.len() {
                                assert(ks.contains(k));
                            }
                        }
                    }
                    assert forall|k: Seq<char>| self.map().dom().contains(k) == old(self).map().insert(
                        idv,
                        value,
                    ).dom().contains(k) by {
                        if ks.contains(k) {
                            let j = ks.index_of(k);
                            assert(self.key_seq()[j] == k);
                        }
                        if k == idv {
                            assert(self.key_seq()[ks.len() as int] == k);
                        }
                        if self.key_seq().contains(k) && k != idv {
                            let j = self.key_seq().index_of(k);
                            assert(ks[j] == k);
                        }
                    }
                    assert(self.map() =~= old(self).map().insert(idv, value));
                }
            },
        }
    }
}

} // verus!
