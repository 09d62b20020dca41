//! The in-memory index from keys to the places of their records.

use vstd::hash_map::StringHashMap;
use vstd::prelude::*;

verus! {

/// Where a record lies: the generation of its segment, the offset of its
/// header there, and its whole length, header included.
#[derive(Clone, Copy, Debug, PartialEq, Eq, Structural)]
pub struct CommandPos {
    pub file_num: u64,
    pub pos: u64,
    pub len: u64,
}

/// What the hash map holds for a key: the record's place in the log, and the
/// key's own place in the list of keys.
#[derive(Clone, Copy)]
struct Slot {
    at: CommandPos,
    place: usize,
}

/// A walk of keys after `key` has left it: the last key takes its place.
pub open spec fn without(order: Seq<Seq<char>>, key: Seq<char>) -> Seq<Seq<char>> {
    if order.contains(key) {
        order.update(order.index_of(key), order.last()).drop_last()
    } else {
        order
    }
}

/// The in-memory index: from each live key to the record that last set it.
///
/// Beside the hash map it keeps the keys in a list, so that they can be
/// walked in an order that depends on nothing but the operations made.
pub struct Index {
    map: StringHashMap<Slot>,
    keys: Vec<String>,
}

impl View for Index {
    type V = Map<Seq<char>, CommandPos>;

    closed spec fn view(&self) -> Map<Seq<char>, CommandPos> {
        self.map@.map_values(|slot: Slot| slot.at)
    }
}

impl Index {
    /// The keys in the order in which a walk meets them.
    pub closed spec fn order(&self) -> Seq<Seq<char>> {
        Seq::new(self.keys@.len(), |i: int| self.keys@[i]@)
    }

    /// The index's own invariant: the list holds each key of the map once,
    /// at the place that the map records for it.
    pub closed spec fn wf(&self) -> bool {
        &&& forall|i: int|
            0 <= i < self.keys@.len() ==> self.map@.contains_key((#[trigger] self.keys@[i])@)
                && self.map@[self.keys@[i]@].place == i
        &&& forall|k: Seq<char>| #[trigger]
            self.map@.contains_key(k) ==> self.map@[k].place < self.keys@.len()
                && self.keys@[self.map@[k].place as int]@ == k
    }

    /// The walk meets every key of the index, and each only once.
    pub proof fn lemma_order(&self)
        requires
            self.wf(),
        ensures
            self.order().no_duplicates(),
            forall|k: Seq<char>| self.order().contains(k) <==> self@.contains_key(k),
    {
        let order = self.order();
        assert forall|i: int, j: int| 0 <= i < order.len() && 0 <= j < order.len() && i != j implies order[i]
            != order[j] by {
            assert(self.map@[self.keys@[i]@].place == i);
            assert(self.map@[self.keys@[j]@].place == j);
        }
        assert forall|k: Seq<char>| order.contains(k) <==> self@.contains_key(k) by {
            if order.contains(k) {
                let i = choose|i: int| 0 <= i < order.len() && order[i] == k;
                assert(self.map@.contains_key(self.keys@[i]@));
            }
            if self@.contains_key(k) {
                assert(self.map@.contains_key(k));
                assert(order[self.map@[k].place as int] == k);
            }
        }
    }

    /// An index without keys.
    pub fn new() -> (index: Index)
        ensures
            index.wf(),
            index@ == Map::<Seq<char>, CommandPos>::empty(),
            index.order() == Seq::<Seq<char>>::empty(),
    {
        let index = Index { map: StringHashMap::new(), keys: Vec::new() };
        assert(index@ =~= Map::<Seq<char>, CommandPos>::empty());
        assert(index.order() =~= Seq::<Seq<char>>::empty());
        index
    }

    /// The number of keys.
    pub fn len(&self) -> (n: usize)
        ensures
            n == self.order().len(),
    {
        self.keys.len()
    }

    /// Tells whether the index holds a key.
    pub fn contains_key(&self, key: &str) -> (found: bool)
        ensures
            found == self@.contains_key(key@),
    {
        self.map.contains_key(key)
    }

    /// The place of the record that last set `key`, if the key is live.
    pub fn get(&self, key: &str) -> (at: Option<CommandPos>)
        ensures
            at == self@.get(key@),
    {
        match self.map.get(key) {
            Some(slot) => Some(slot.at),
            None => None,
        }
    }

    /// Binds `key` to a place and hands out the place it was bound to before.
    /// A key that is new to the index goes to the end of the walk.
    pub fn insert(&mut self, key: String, at: CommandPos) -> (previous: Option<CommandPos>)
        requires
            old(self).wf(),
        ensures
            final(self).wf(),
            final(self)@ == old(self)@.insert(key@, at),
            previous == old(self)@.get(key@),
            final(self).order() == if old(self)@.contains_key(key@) {
                old(self).order()
            } else {
                old(self).order().push(key@)
            },
    {
        let found: Option<Slot> = match self.map.get(key.as_str()) {
            Some(slot) => Some(*slot),
            None => None,
        };
        match found {
            Some(slot) => {
                let ghost k = key@;
                self.map.insert(key, Slot { at, place: slot.place });
                proof {
                    assert(final(self)@ =~= old(self)@.insert(k, at));
                    assert(final(self).order() =~= old(self).order());
                }
                Some(slot.at)
            },
            None => {
                let ghost k = key@;
                let place: usize = self.keys.len();
                let copy: String = key.clone();
                self.map.insert(copy, Slot { at, place });
                self.keys.push(key);
                proof {
                    assert(final(self)@ =~= old(self)@.insert(k, at));
                    assert(final(self).order() =~= old(self).order().push(k));
                    assert forall|i: int| 0 <= i < self.keys@.len() implies self.map@.contains_key(
                        (#[trigger] self.keys@[i])@,
                    ) && self.map@[self.keys@[i]@].place == i by {
                        if i < place {
                            assert(old(self).map@.contains_key(old(self).keys@[i]@));
                        }
                    }
                }
                None
            },
        }
    }

    /// Points `key` at `at` if the key is live and its record lies in a
    /// generation below `bound`; tells whether it did.
    pub fn relocate(&mut self, key: String, at: CommandPos, bound: u64) -> (done: bool)
        requires
            old(self).wf(),
        ensures
            final(self).wf(),
            done == (old(self)@.contains_key(key@) && old(self)@[key@].file_num < bound),
            final(self)@ == if done {
                old(self)@.insert(key@, at)
            } else {
                old(self)@
            },
            final(self).order() == old(self).order(),
    {
        match self.get(key.as_str()) {
            Some(current) => {
                if current.file_num < bound {
                    self.insert(key, at);
                    true
                } else {
                    false
                }
            },
            None => false,
        }
    }

    /// Unbinds `key` and hands out the place it was bound to.
    pub fn remove(&mut self, key: &str) -> (previous: Option<CommandPos>)
        requires
            old(self).wf(),
        ensures
            final(self).wf(),
            final(self)@ == old(self)@.remove(key@),
            previous == old(self)@.get(key@),
            final(self).order() == without(old(self).order(), key@),
    {
        let found: Option<Slot> = match self.map.get(key) {
            Some(slot) => Some(*slot),
            None => None,
        };
        match found {
            None => {
                proof {
                    assert(self@ =~= old(self)@.remove(key@));
                    self.lemma_order();
                    assert(!old(self)@.contains_key(key@));
                }
                None
            },
            Some(slot) => {
                let place: usize = slot.place;
                let last: usize = self.keys.len() - 1;
                let ghost moved_key = self.keys@[last as int]@;
                assert(old(self).map@.contains_key(old(self).keys@[last as int]@));
                proof {
                    self.lemma_order();
                    let order = old(self).order();
                    assert(order[place as int] == key@);
                    assert(order.contains(key@));
                    let p = order.index_of(key@);
                    assert(p == place) by {
                        if p != place {
                            assert(order[p] != order[place as int]);
                        }
                    }
                }
                if place != last {
                    let moved: String = self.keys[last].clone();
                    if let Some(at) = self.get(moved.as_str()) {
                        self.map.insert(moved, Slot { at, place });
                    }
                }
                self.keys.swap_remove(place);
                self.map.remove(key);
                proof {
                    assert(final(self)@ =~= old(self)@.remove(key@));
                    assert(final(self).order() =~= without(old(self).order(), key@));
                    assert forall|i: int| 0 <= i < self.keys@.len() implies self.map@.contains_key(
                        (#[trigger] self.keys@[i])@,
                    ) && self.map@[self.keys@[i]@].place == i by {
                        if i != place {
                            assert(old(self).map@.contains_key(old(self).keys@[i]@));
                            assert(old(self).map@[old(self).keys@[i]@].place == i);
                        }
                    }
                    assert forall|k: Seq<char>| #[trigger]
                        self.map@.contains_key(k) implies self.map@[k].place < self.keys@.len()
                        && self.keys@[self.map@[k].place as int]@ == k by {
                        assert(old(self).map@.contains_key(k));
                        if k != moved_key {
                            assert(old(self).map@[k].place != last);
                        }
                    }
                }
                Some(slot.at)
            },
        }
    }

    /// The live keys with their places, in the order of the walk.
    pub fn entries(&self) -> (list: Vec<(String, CommandPos)>)
        requires
            self.wf(),
        ensures
            list@.len() == self.order().len(),
            forall|i: int|
                0 <= i < list@.len() ==> (#[trigger] list@[i]).0@ == self.order()[i]
                    && self@.contains_key(self.order()[i]) && list@[i].1 == self@[self.order()[i]],
    {
        let mut list: Vec<(String, CommandPos)> = Vec::new();
        let mut i: usize = 0;
        while i < self.keys.len()
            invariant
                self.wf(),
                i <= self.keys@.len(),
                list@.len() == i,
                forall|j: int|
                    0 <= j < i ==> (#[trigger] list@[j]).0@ == self.order()[j]
                        && self@.contains_key(self.order()[j]) && list@[j].1
                        == self@[self.order()[j]],
            decreases self.keys@.len() - i,
        {
            let key: String = self.keys[i].clone();
            assert(self.map@.contains_key(self.keys@[i as int]@));
            if let Some(at) = self.get(key.as_str()) {
                list.push((key, at));
            }
            i += 1;
        }
        list
    }
}

} // verus!
