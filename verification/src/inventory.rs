//! The stock of one size class: how many stems of each kind are on hand.

use std::collections::HashMap;
use vstd::prelude::*;

verus! {

/// The key under which a kind is counted: its code point.
pub open spec fn key_of(kind: char) -> u32 {
    kind as u32
}

/// Different kinds are counted under different keys.
pub proof fn lemma_key_injective(a: char, b: char)
    ensures
        key_of(a) == key_of(b) <==> a == b,
{
}

/// A count per kind of stem. A kind that never arrived counts as zero.
pub struct Inventory {
    counts: HashMap<u32, u16>,
}

impl Inventory {
    /// The number of stems of the given kind on hand.
    pub closed spec fn stock(&self, kind: char) -> nat {
        if self.counts@.contains_key(key_of(kind)) {
            self.counts@[key_of(kind)] as nat
        } else {
            0
        }
    }

    /// An inventory without any stems.
    pub fn new() -> (inventory: Self)
        ensures
            inventory@ == Map::total(|kind: char| 0nat),
    {
        let inventory = Inventory { counts: HashMap::new() };
        assert(inventory@ =~= Map::total(|kind: char| 0nat));
        inventory
    }

    /// The number of stems of the given kind on hand.
    pub fn count(&self, kind: char) -> (n: u16)
        ensures
            n == self@[kind],
    {
        let key: u32 = kind as u32;
        match self.counts.get(&key) {
            Some(n) => *n,
            None => 0,
        }
    }

    /// Sets the count of one kind and leaves the others as they are.
    fn set(&mut self, kind: char, n: u16)
        ensures
            final(self)@ == old(self)@.insert(kind, n as nat),
    {
        let key: u32 = kind as u32;
        self.counts.insert(key, n);
        let ghost wanted = old(self)@.insert(kind, n as nat);
        assert forall|other: char| #[trigger] self.stock(other) == wanted[other] by {
            lemma_key_injective(other, kind);
        }
        assert(self@ =~= wanted);
    }

    /// Puts one more stem of the given kind into the inventory.
    pub fn add_one(&mut self, kind: char)
        requires
            old(self)@[kind] < u16::MAX,
        ensures
            final(self)@ == old(self)@.insert(kind, old(self)@[kind] + 1),
    {
        let n: u16 = self.count(kind);
        self.set(kind, n + 1);
    }

    /// Takes `amount` stems of the given kind out of the inventory.
    pub fn remove(&mut self, kind: char, amount: u16)
        requires
            amount <= old(self)@[kind],
        ensures
            final(self)@ == old(self)@.insert(kind, (old(self)@[kind] - amount) as nat),
    {
        let n: u16 = self.count(kind);
        self.set(kind, n - amount);
    }
}

impl View for Inventory {
    type V = Map<char, nat>;

    /// The inventory as a map that is defined on every kind.
    open spec fn view(&self) -> Map<char, nat> {
        Map::total(|kind: char| self.stock(kind))
    }
}

} // verus!
