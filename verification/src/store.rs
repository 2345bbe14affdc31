use vstd::prelude::*;

use crate::values::{AbstractValue, SystemStateVar};

verus! {

/// Authoritative mapping from state key to last-observed value,
/// backed by an association list with pairwise-distinct keys.
pub struct StateStore {
    pub entries: Vec<(String, SystemStateVar)>,
}

impl StateStore {
    /// Keys in storage order.
    pub open spec fn key_seq(self) -> Seq<Seq<char>> {
        self.entries@.map_values(|p: (String, SystemStateVar)| p.0@)
    }

    /// Well-formed: no key occurs twice.
    pub open spec fn wf(self) -> bool {
        forall|i: int, j: int|
            0 <= i < j < self.entries@.len() ==> self.entries@[i].0@ != self.entries@[j].0@
    }

    pub open spec fn spec_contains(self, k: Seq<char>) -> bool {
        exists|i: int| 0 <= i < self.entries@.len() && self.entries@[i].0@ == k
    }

    pub open spec fn spec_index_of(self, k: Seq<char>) -> int {
        choose|i: int| 0 <= i < self.entries@.len() && self.entries@[i].0@ == k
    }

    /// The store as a mathematical map from key to value model.
    pub open spec fn view(self) -> Map<Seq<char>, AbstractValue> {
        Map::new(
            |k: Seq<char>| self.spec_contains(k),
            |k: Seq<char>| self.entries@[self.spec_index_of(k)].1@,
        )
    }

    /// An empty store.
    pub fn new() -> (r: StateStore)
        ensures
            r.wf(),
            r@ == Map::<Seq<char>, AbstractValue>::empty(),
            r.key_seq() == Seq::<Seq<char>>::empty(),
    {
        let r = StateStore { entries: Vec::new() };
        proof {
            assert(r.key_seq() =~= Seq::<Seq<char>>::empty());
            assert(r@ =~= Map::<Seq<char>, AbstractValue>::empty());
        }
        r
    }

    /// Looks a key up; `Some` exactly when the key is present.
    pub fn get(&self, key: &String) -> (r: Option<&SystemStateVar>)
        requires
            self.wf(),
        ensures
            match r {
                Some(v) => self@.dom().contains(key@) && v@ == self@[key@],
                None => !self@.dom().contains(key@),
            },
    {
        let n = self.entries.len();
        let mut i: usize = 0;
        while i < n
            invariant
                i <= n,
                n == self.entries@.len(),
                self.wf(),
                forall|j: int| 0 <= j < i ==> self.entries@[j].0@ != key@,
            decreases n - i,
        {
            if String::eq(&self.entries[i].0, key) {
                proof {
                    assert(self.spec_contains(key@));
                    let w = self.spec_index_of(key@);
                    assert(0 <= w < self.entries@.len() && self.entries@[w].0@ == key@);
                    assert(w == i);
                }
                return Some(&self.entries[i].1);
            }
            i = i + 1;
        }
        proof {
            assert(!self.spec_contains(key@));
        }
        None
    }

    /// Decides presence of a key.
    pub fn contains_key(&self, key: &String) -> (r: bool)
        requires
            self.wf(),
        ensures
            r == self@.dom().contains(key@),
    {
        match self.get(key) {
            Some(_) => true,
            None => false,
        }
    }

    /// Writes a value: overwrites in place when the key exists,
    /// appends a fresh entry otherwise. Keys are never removed.
    pub fn set(&mut self, key: &String, val: SystemStateVar)
        requires
            old(self).wf(),
        ensures
            final(self).wf(),
            final(self)@ == old(self)@.insert(key@, val@),
            final(self).key_seq() == if old(self)@.dom().contains(key@) {
                old(self).key_seq()
            } else {
                old(self).key_seq().push(key@)
            },
    {
        let n = self.entries.len();
        let mut i: usize = 0;
        while i < n
            invariant
                i <= n,
                n == self.entries@.len(),
                self.wf(),
                *self == *old(self),
                forall|j: int| 0 <= j < i ==> self.entries@[j].0@ != key@,
            decreases n - i,
        {
            if String::eq(&self.entries[i].0, key) {
                let k_copy = self.entries[i].0.clone();
                self.entries.set(i, (k_copy, val));
                proof {
                    assert(old(self).spec_contains(key@));
                    assert(final(self).key_seq() =~= old(self).key_seq());
                    assert(forall|j: int|
                        0 <= j < final(self).entries@.len() ==> final(self).entries@[j].0@
                            == old(self).entries@[j].0@);
                    assert forall|k: Seq<char>|
                        final(self).spec_contains(k) == old(self).spec_contains(k) by {
                        if final(self).spec_contains(k) {
                            let j = choose|j: int|
                                0 <= j < final(self).entries@.len()
                                    && final(self).entries@[j].0@ == k;
                            assert(old(self).entries@[j].0@ == k);
                        }
                        if old(self).spec_contains(k) {
                            let j = choose|j: int|
                                0 <= j < old(self).entries@.len() && old(self).entries@[j].0@
                                    == k;
                            assert(final(self).entries@[j].0@ == k);
                        }
                    }
                    assert(final(self).wf());
                    assert forall|k: Seq<char>| #[trigger] final(self)@.dom().contains(k) implies
                        final(self)@[k] == old(self)@.insert(key@, val@)[k] by {
                        let w = final(self).spec_index_of(k);
                        let w0 = old(self).spec_index_of(k);
                        assert(0 <= w < final(self).entries@.len()
                            && final(self).entries@[w].0@ == k);
                        if k == key@ {
                            assert(w == i);
                        } else {
                            assert(final(self).entries@[w0].0@ == k);
                            assert(w == w0);
                        }
                    }
                    assert(final(self)@ =~= old(self)@.insert(key@, val@));
                }
                return ;
            }
            i = i + 1;
        }
        let key_copy = key.clone();
        self.entries.push((key_copy, val));
        proof {
            assert(!old(self).spec_contains(key@));
            assert(final(self).key_seq() =~= old(self).key_seq().push(key@));
            assert(final(self).entries@[n as int].0@ == key@);
            assert(forall|j: int|
                0 <= j < n ==> final(self).entries@[j] == old(self).entries@[j]);
            assert(final(self).wf());
            assert forall|k: Seq<char>| #[trigger] final(self)@.dom().contains(k) implies
                final(self)@[k] == old(self)@.insert(key@, val@)[k] by {
                let w = final(self).spec_index_of(k);
                assert(0 <= w < final(self).entries@.len() && final(self).entries@[w].0@ == k);
                if k == key@ {
                    assert(w == n);
                } else {
                    assert(w < n);
                    let w0 = old(self).spec_index_of(k);
                    assert(old(self).entries@[w].0@ == k);
                    assert(w == w0);
                }
            }
            assert forall|k: Seq<char>| #[trigger] old(self)@.insert(key@, val@).dom().contains(k)
                implies final(self)@.dom().contains(k) by {
                if k == key@ {
                    assert(final(self).entries@[n as int].0@ == k);
                } else {
                    let w0 = old(self).spec_index_of(k);
                    assert(0 <= w0 < n && old(self).entries@[w0].0@ == k);
                    assert(final(self).entries@[w0].0@ == k);
                }
            }
            assert(final(self)@ =~= old(self)@.insert(key@, val@));
        }
    }
}

} // verus!
