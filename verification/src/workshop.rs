//! The two assemblers side by side, and the routing of flowers to them.

use crate::assembler::{arrival, Assember};
use crate::types::{Bouquet, DesignSpec, Flower, StemSize};
use vstd::prelude::*;

verus! {

/// One assembler per size class. Each has its own catalog and its own stock;
/// a flower only ever reaches the assembler of its class.
pub struct Workshop<'a> {
    pub large: Assember<'a>,
    pub small: Assember<'a>,
}

impl<'a> Workshop<'a> {
    /// Both assemblers are well formed, and each catalog holds designs of its class only.
    pub open spec fn well_formed(&self) -> bool {
        &&& self.large.well_formed()
        &&& self.small.well_formed()
        &&& forall|i: int|
            0 <= i < self.large.designs().len() ==> (#[trigger] self.large.designs()[i]).size
                == StemSize::L
        &&& forall|i: int|
            0 <= i < self.small.designs().len() ==> (#[trigger] self.small.designs()[i]).size
                == StemSize::S
    }

    /// The assembler that flowers of the given class go to.
    pub open spec fn assembler_of(&self, size: StemSize) -> Assember<'a> {
        match size {
            StemSize::L => self.large,
            StemSize::S => self.small,
        }
    }

    /// A workshop for the two catalogs, with empty stocks.
    pub fn new(large: &'a Vec<DesignSpec>, small: &'a Vec<DesignSpec>) -> (workshop: Self)
        requires
            forall|i: int|
                0 <= i < large@.len() ==> (#[trigger] large@[i]).usable() && large@[i].size
                    == StemSize::L,
            forall|i: int|
                0 <= i < small@.len() ==> (#[trigger] small@[i]).usable() && small@[i].size
                    == StemSize::S,
        ensures
            workshop.well_formed(),
            workshop.large.designs() == large@,
            workshop.small.designs() == small@,
            workshop.large.inventory() == Map::total(|kind: char| 0nat),
            workshop.small.inventory() == Map::total(|kind: char| 0nat),
    {
        Workshop { large: Assember::new(large), small: Assember::new(small) }
    }

    /// Hands a flower to the assembler of its size class. The other assembler
    /// is left as it is, so a bouquet is always of the flower's class.
    pub fn add_flower(&mut self, flower: Flower) -> (bouquet: Option<Bouquet>)
        requires
            old(self).well_formed(),
            old(self).assembler_of(flower.size).inventory()[flower.name] < u16::MAX,
        ensures
            final(self).well_formed(),
            final(self).large.designs() == old(self).large.designs(),
            final(self).small.designs() == old(self).small.designs(),
            arrival(
                old(self).assembler_of(flower.size).designs(),
                old(self).assembler_of(flower.size).inventory(),
                flower.name,
                final(self).assembler_of(flower.size).inventory(),
                bouquet,
            ),
            flower.size == StemSize::L ==> final(self).small == old(self).small,
            flower.size == StemSize::S ==> final(self).large == old(self).large,
            bouquet matches Some(b) ==> b.size == flower.size,
    {
        match flower.size {
            StemSize::L => self.large.add_flower(flower),
            StemSize::S => self.small.add_flower(flower),
        }
    }
}

} // verus!
