//! Socket addresses as plain numbers, and the map from addresses to slots.

use vstd::prelude::*;

verus! {

/// Opaque key identifying a peer slot in the task.
#[derive(Debug, Clone, Copy, PartialEq, Eq, Hash, Structural)]
pub struct PeerKey(pub usize);

/// A socket address: IP address, port and, for IPv6, flow information and
/// scope.
#[derive(Debug, Clone, Copy, PartialEq, Eq, Hash, Structural)]
pub struct Address {
    pub v6: bool,
    pub ip: u128,
    pub port: u16,
    pub flow: u32,
    pub scope: u32,
}

/// Which slot each address has.
pub struct AddressMap {
    entries: Vec<(Address, PeerKey)>,
}

/// The position of the entry for `a`.
pub closed spec fn entry_of(entries: Seq<(Address, PeerKey)>, a: Address) -> int {
    choose|i: int| 0 <= i < entries.len() && (#[trigger] entries[i]).0 == a
}

impl View for AddressMap {
    type V = Map<Address, PeerKey>;

    closed spec fn view(&self) -> Map<Address, PeerKey> {
        let s = self.entries@;
        Map::new(
            |a: Address| exists|i: int| 0 <= i < s.len() && (#[trigger] s[i]).0 == a,
            |a: Address| s[entry_of(s, a)].1,
        )
    }
}

impl AddressMap {
    /// No address has two entries.
    pub closed spec fn wf(&self) -> bool {
        forall|i: int, j: int|
            0 <= i < j < self.entries@.len() ==> (#[trigger] self.entries@[i]).0 != (
            #[trigger] self.entries@[j]).0
    }

    /// A map without entries.
    pub fn new() -> (r: Self)
        ensures
            r.wf(),
            r@ == Map::<Address, PeerKey>::empty(),
    {
        let r = Self { entries: Vec::new() };
        assert(r@ =~= Map::empty());
        r
    }

    proof fn lemma_entry(&self, i: int)
        requires
            self.wf(),
            0 <= i < self.entries@.len(),
        ensures
            self@.contains_key(self.entries@[i].0),
            self@[self.entries@[i].0] == self.entries@[i].1,
    {
        let a = self.entries@[i].0;
        let j = entry_of(self.entries@, a);
        assert(0 <= j < self.entries@.len() && self.entries@[j].0 == a);
        assert(i == j);
    }

    fn find(&self, a: Address) -> (r: Option<usize>)
        requires
            self.wf(),
        ensures
            match r {
                Some(i) => i < self.entries@.len() && self.entries@[i as int].0 == a,
                None => !self@.contains_key(a),
            },
    {
        let mut i: usize = 0;
        while i < self.entries.len()
            invariant
                i <= self.entries@.len(),
                forall|j: int| 0 <= j < i ==> (#[trigger] self.entries@[j]).0 != a,
            decreases self.entries@.len() - i,
        {
            if self.entries[i].0 == a {
                return Some(i);
            }
            i += 1;
        }
        None
    }

    /// The slot of an address, if it has one.
    pub fn get(&self, a: Address) -> (r: Option<PeerKey>)
        requires
            self.wf(),
        ensures
            r == (if self@.contains_key(a) {
                Some(self@[a])
            } else {
                None
            }),
    {
        match self.find(a) {
            Some(i) => {
                proof {
                    self.lemma_entry(i as int);
                }
                Some(self.entries[i].1)
            },
            None => None,
        }
    }

    /// Gives an address a slot, in place of the one it had.
    pub fn insert(&mut self, a: Address, k: PeerKey)
        requires
            old(self).wf(),
        ensures
            final(self).wf(),
            final(self)@ == old(self)@.insert(a, k),
    {
        match self.find(a) {
            Some(i) => {
                self.entries.set(i, (a, k));
                assert(self.entries@[i as int].0 == a);
            },
            None => {
                proof {
                    assert forall|j: int| 0 <= j < self.entries@.len() implies (
                    #[trigger] self.entries@[j]).0 != a by {
                        self.lemma_entry(j);
                    }
                }
                self.entries.push((a, k));
                assert(self.entries@[self.entries@.len() - 1].0 == a);
            },
        }
        proof {
            let was = old(self);
            assert(self@.contains_key(a));
            assert forall|j: int| 0 <= j < self.entries@.len() implies (#[trigger] self.entries@[j])
                == (if self.entries@[j].0 == a {
                (a, k)
            } else {
                was.entries@[j]
            }) by {}
            assert forall|x: Address|
                self@.contains_key(x) == old(self)@.insert(a, k).contains_key(x) by {
                if x == a {
                } else if self@.contains_key(x) {
                    let j = choose|j: int|
                        0 <= j < self.entries@.len() && (#[trigger] self.entries@[j]).0 == x;
                    assert(was.entries@[j].0 == x);
                } else if was@.contains_key(x) {
                    let j = choose|j: int|
                        0 <= j < was.entries@.len() && (#[trigger] was.entries@[j]).0 == x;
                    assert(self.entries@[j].0 == x);
                }
            }
            assert forall|x: Address| self@.contains_key(x) implies self@[x] == old(self)@.insert(
                a,
                k,
            )[x] by {
                let j = choose|j: int|
                    0 <= j < self.entries@.len() && (#[trigger] self.entries@[j]).0 == x;
                self.lemma_entry(j);
                if x != a {
                    was.lemma_entry(j);
                }
            }
            assert(self@ =~= old(self)@.insert(a, k));
        }
    }

    /// Takes the slot of an address away.
    pub fn remove(&mut self, a: Address)
        requires
            old(self).wf(),
        ensures
            final(self).wf(),
            final(self)@ == old(self)@.remove(a),
    {
        match self.find(a) {
            Some(i) => {
                self.entries.remove(i);
                proof {
                    let was = old(self);
                    assert forall|x: Address| #[trigger]
                        self@.contains_key(x) == old(self)@.remove(a).contains_key(x) by {
                        if self@.contains_key(x) {
                            let j = choose|j: int|
                                0 <= j < self.entries@.len() && (#[trigger] self.entries@[j]).0
                                    == x;
                            let old_j = if j < i {
                                j
                            } else {
                                j + 1
                            };
                            assert(was.entries@[old_j].0 == x);
                        } else if was@.contains_key(x) && x != a {
                            let j = choose|j: int|
                                0 <= j < was.entries@.len() && (#[trigger] was.entries@[j]).0 == x;
                            let new_j = if j < i {
                                j
                            } else {
                                j - 1
                            };
                            assert(self.entries@[new_j].0 == x);
                        }
                    }
                    assert forall|x: Address| #[trigger] self@.contains_key(x) implies self@[x]
                        == old(self)@[x] by {
                        let j = choose|j: int|
                            0 <= j < self.entries@.len() && (#[trigger] self.entries@[j]).0 == x;
                        self.lemma_entry(j);
                        if j < i {
                            was.lemma_entry(j);
                        } else {
                            was.lemma_entry(j + 1);
                        }
                    }
                    assert(self@ =~= old(self)@.remove(a));
                }
            },
            None => {
                assert(self@ =~= old(self)@.remove(a));
            },
        }
    }
}

} // verus!
