//! The set of watched addresses.

use vstd::prelude::*;
use crate::primitives::Address;

verus! {

/// A set of addresses, in the order in which they were first added.
pub struct WatchedSet {
    items: Vec<Address>,
}

impl View for WatchedSet {
    type V = Set<Address>;

    closed spec fn view(&self) -> Set<Address> {
        self.items@.to_set()
    }
}

impl WatchedSet {
    #[verifier::type_invariant]
    spec fn distinct(self) -> bool {
        self.items@.no_duplicates()
    }

    /// The members in the order in which they were first added.
    pub closed spec fn order(self) -> Seq<Address> {
        self.items@
    }

    pub fn new() -> (r: WatchedSet)
        ensures
            r@ == Set::<Address>::empty(),
            r.order() == Seq::<Address>::empty(),
    {
        let r = WatchedSet { items: Vec::new() };
        assert(r@ == Set::<Address>::empty());
        r
    }

    /// The set of the addresses of a slice.
    pub fn from_addresses(addresses: &[Address]) -> (r: WatchedSet)
        ensures
            r@ == addresses@.to_set(),
    {
        let mut r = WatchedSet::new();
        let mut i: usize = 0;
        assert(addresses@.take(0).to_set() == Set::<Address>::empty());
        while i < addresses.len()
            invariant
                i <= addresses@.len(),
                r@ == addresses@.take(i as int).to_set(),
            decreases addresses@.len() - i,
        {
            r.insert(addresses[i]);
            proof {
                let before = addresses@.take(i as int);
                let after = addresses@.take(i + 1);
                assert(after == before.push(addresses@[i as int]));
                assert forall|a: Address| after.to_set().contains(a) == before.to_set().insert(
                    addresses@[i as int],
                ).contains(a) by {
                    if before.contains(a) {
                        let k = choose|k: int| 0 <= k < before.len() && before[k] == a;
                        assert(after[k] == a);
                    }
                    if after.contains(a) {
                        let k = choose|k: int| 0 <= k < after.len() && after[k] == a;
                        if k < before.len() {
                            assert(before[k] == a);
                        }
                    }
                    assert(after[i as int] == addresses@[i as int]);
                }
                assert(after.to_set() == before.to_set().insert(addresses@[i as int]));
            }
            i += 1;
        }
        assert(addresses@.take(i as int) == addresses@);
        r
    }

    pub fn contains(&self, address: &Address) -> (r: bool)
        ensures
            r == self@.contains(*address),
    {
        let mut i: usize = 0;
        while i < self.items.len()
            invariant
                i <= self.items@.len(),
                forall|k: int| 0 <= k < i ==> self.items@[k] != *address,
            decreases self.items@.len() - i,
        {
            if self.items[i] == *address {
                return true;
            }
            i += 1;
        }
        false
    }

    /// Adds an address; `false` if it was a member already.
    pub fn insert(&mut self, address: Address) -> (r: bool)
        ensures
            final(self)@ == old(self)@.insert(address),
            r == !old(self)@.contains(address),
            final(self).order() == if r {
                old(self).order().push(address)
            } else {
                old(self).order()
            },
    {
        if self.contains(&address) {
            assert(self@ == self@.insert(address));
            return false;
        }
        proof {
            use_type_invariant(&*self);
        }
        let ghost before = self.items@;
        let mut items: Vec<Address> = Vec::new();
        std::mem::swap(&mut items, &mut self.items);
        items.push(address);
        proof {
            let after = items@;
            assert(!before.contains(address));
            assert forall|a: Address| after.to_set().contains(a) == before.to_set().insert(
                address,
            ).contains(a) by {
                if before.contains(a) {
                    let k = choose|k: int| 0 <= k < before.len() && before[k] == a;
                    assert(after[k] == a);
                }
                if after.contains(a) {
                    let k = choose|k: int| 0 <= k < after.len() && after[k] == a;
                    if k < before.len() {
                        assert(before[k] == a);
                    }
                }
                assert(after[before.len() as int] == address);
            }
            assert(after.to_set() == before.to_set().insert(address));
        }
        self.items = items;
        true
    }

    pub fn len(&self) -> (r: usize)
        ensures
            r == self@.len(),
            r == self.order().len(),
    {
        proof {
            use_type_invariant(self);
            self.items@.unique_seq_to_set();
        }
        self.items.len()
    }

    pub fn is_empty(&self) -> (r: bool)
        ensures
            r == (self@ == Set::<Address>::empty()),
    {
        proof {
            if self.items@.len() > 0 {
                assert(self@.contains(self.items@[0]));
            } else {
                assert(self@ == Set::<Address>::empty());
            }
        }
        self.items.len() == 0
    }

    /// The members, each once.
    pub fn members(&self) -> (r: &[Address])
        ensures
            r@ == self.order(),
            r@.no_duplicates(),
            r@.to_set() == self@,
    {
        proof {
            use_type_invariant(self);
        }
        self.items.as_slice()
    }
}

impl Clone for WatchedSet {
    fn clone(&self) -> (r: Self)
        ensures
            r@ == self@,
            r.order() == self.order(),
    {
        proof {
            use_type_invariant(self);
        }
        let items = self.items.clone();
        assert(items@ =~= self.items@);
        WatchedSet { items }
    }
}

} // verus!
