//! A set of nonzero 64-bit integers: the map with values of type `()`.

use crate::map::HashMapNZ64;
use crate::rng::Rng;
use vstd::prelude::*;

verus! {

/// A set of nonzero 64-bit integers.
pub struct HashSetNZ64(HashMapNZ64<()>);

/// The members of a set, handed out one at a time.
#[derive(Clone)]
pub struct Iter {
    keys: Vec<u64>,
    next: usize,
}

impl View for HashSetNZ64 {
    type V = Set<u64>;

    closed spec fn view(&self) -> Set<u64> {
        self.0@.dom()
    }
}

impl View for Iter {
    type V = Seq<u64>;

    /// The members not yet handed out, in the order they will come.
    closed spec fn view(&self) -> Seq<u64> {
        if self.next <= self.keys@.len() {
            self.keys@.subrange(self.next as int, self.keys@.len() as int)
        } else {
            Seq::empty()
        }
    }
}

impl HashSetNZ64 {
    /// The invariant of the set.
    pub closed spec fn wf(&self) -> bool {
        self.0.wf()
    }

    /// The number of slots in the underlying table.
    pub closed spec fn slot_count(&self) -> nat {
        self.0.slot_count()
    }

    /// An empty set seeded from the operating system's entropy source.
    pub fn new() -> (r: Self)
        ensures
            r.wf(),
            r@ == Set::<u64>::empty(),
    {
        HashSetNZ64(HashMapNZ64::new())
    }

    /// An empty set whose mixer is drawn from `rng`.
    pub fn new_seeded(rng: &mut Rng) -> (r: Self)
        requires
            old(rng).wf(),
        ensures
            final(rng).wf(),
            r.wf(),
            r@ == Set::<u64>::empty(),
    {
        HashSetNZ64(HashMapNZ64::new_seeded(rng))
    }

    /// The number of members.
    pub fn len(&self) -> (r: usize)
        requires
            self.wf(),
        ensures
            r == self@.len(),
            self@.finite(),
    {
        self.0.len()
    }

    /// Whether the set has no members.
    pub fn is_empty(&self) -> (r: bool)
        requires
            self.wf(),
        ensures
            r == (self@.len() == 0),
    {
        self.0.is_empty()
    }

    /// Whether `key` is a member.
    pub fn contains(&self, key: u64) -> (r: bool)
        requires
            self.wf(),
            key != 0,
        ensures
            r == self@.contains(key),
    {
        self.0.contains_key(key)
    }

    /// Adds `key`; returns whether it was already a member.
    pub fn insert(&mut self, key: u64) -> (r: bool)
        requires
            old(self).wf(),
            key != 0,
            old(self)@.len() < HashMapNZ64::<()>::entry_limit(),
        ensures
            final(self).wf(),
            final(self)@ == old(self)@.insert(key),
            final(self)@.finite(),
            r == old(self)@.contains(key),
    {
        let r = self.0.insert(key, ());
        proof {
            assert(self@ =~= old(self)@.insert(key));
        }
        r.is_some()
    }

    /// Takes `key` out; returns whether it was a member.
    pub fn remove(&mut self, key: u64) -> (r: bool)
        requires
            old(self).wf(),
            key != 0,
        ensures
            final(self).wf(),
            final(self)@ == old(self)@.remove(key),
            final(self)@.finite(),
            r == old(self)@.contains(key),
    {
        let r = self.0.remove(key);
        proof {
            assert(self@ =~= old(self)@.remove(key));
        }
        r.is_some()
    }

    /// Removes every member and keeps the table for reuse.
    pub fn clear(&mut self)
        requires
            old(self).wf(),
        ensures
            final(self).wf(),
            final(self)@ == Set::<u64>::empty(),
            final(self).slot_count() == old(self).slot_count(),
    {
        self.0.clear();
        proof {
            assert(self@ =~= Set::<u64>::empty());
        }
    }

    /// Removes every member and releases the table.
    pub fn reset(&mut self)
        requires
            old(self).wf(),
        ensures
            final(self).wf(),
            final(self)@ == Set::<u64>::empty(),
            final(self).slot_count() == 0,
    {
        self.0.reset();
        proof {
            assert(self@ =~= Set::<u64>::empty());
        }
    }

    /// The members in increasing order.
    pub fn sorted_keys(&self) -> (r: Vec<u64>)
        requires
            self.wf(),
        ensures
            r@.len() == self@.len(),
            forall|i: int, j: int| 0 <= i < j < r@.len() ==> r@[i] < r@[j],
            forall|k: u64| #[trigger] r@.contains(k) <==> self@.contains(k),
    {
        self.0.sorted_keys()
    }

    /// The members in table order, each once.
    pub fn iter(&self) -> (r: Iter)
        requires
            self.wf(),
        ensures
            r@.len() == self@.len(),
            r@.no_duplicates(),
            forall|k: u64| #[trigger] r@.contains(k) <==> self@.contains(k),
    {
        let keys = self.0.keys();
        let r = Iter { keys, next: 0 };
        proof {
            assert(r@ =~= keys@);
        }
        r
    }
}

impl Iter {
    /// The next member, if any are left.
    pub fn next(&mut self) -> (r: Option<u64>)
        ensures
            match r {
                Some(k) => {
                    &&& old(self)@.len() > 0
                    &&& k == old(self)@[0]
                    &&& final(self)@ == old(self)@.drop_first()
                },
                None => {
                    &&& old(self)@.len() == 0
                    &&& final(self)@ == old(self)@
                },
            },
    {
        if self.next < self.keys.len() {
            let k = self.keys[self.next];
            self.next = self.next + 1;
            proof {
                assert(self@ =~= old(self)@.drop_first());
            }
            Some(k)
        } else {
            None
        }
    }

    /// How many members are left, as a lower and an upper bound.
    pub fn size_hint(&self) -> (r: (usize, Option<usize>))
        ensures
            r.0 == self@.len(),
            r.1 == Some(self@.len() as usize),
    {
        if self.next < self.keys.len() {
            let n = self.keys.len() - self.next;
            (n, Some(n))
        } else {
            (0, Some(0))
        }
    }
}

} // verus!
