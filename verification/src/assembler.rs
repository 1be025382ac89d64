//! The assembler of one size class: a catalog of designs and the stock that
//! arriving flowers build up.

use crate::inventory::Inventory;
use crate::matching::{
    assemble, fills, lemma_fills_monotone, lemma_trimmed_shape, raw_takes, take_of, trimmed,
};
use crate::types::{
    amount_of, distinct_kinds, has_kind, lemma_amount_of_entry, lemma_amount_of_listed,
    lemma_amount_of_unlisted, stem_sum, Bouquet, DesignSpec, DesignStem, Flower,
};
use vstd::prelude::*;

verus! {

/// The stock after one more stem of `kind` has arrived.
pub open spec fn stocked(stock: Map<char, nat>, kind: char) -> Map<char, nat> {
    stock.insert(kind, stock[kind] + 1)
}

/// Whether an arrival of `kind` completes the design: the design lists the
/// kind, and the stock fills it.
pub open spec fn completes(design: DesignSpec, kind: char, stock: Map<char, nat>) -> bool {
    &&& has_kind(design.stems@, kind)
    &&& fills(design.stems@, design.total as nat, stock)
}

/// Whether design `i` is the first of the catalog that an arrival of `kind` completes.
pub open spec fn first_completed(
    designs: Seq<DesignSpec>,
    kind: char,
    stock: Map<char, nat>,
    i: int,
) -> bool {
    &&& 0 <= i < designs.len()
    &&& completes(designs[i], kind, stock)
    &&& forall|j: int| 0 <= j < i ==> !completes(#[trigger] designs[j], kind, stock)
}

/// Whether `bouquet` is `design` filled from the stock: the design's own
/// header, and its draw trimmed to the total.
pub open spec fn assembled_from(
    bouquet: Bouquet,
    design: DesignSpec,
    stock: Map<char, nat>,
) -> bool {
    &&& bouquet.design == design.design
    &&& bouquet.size == design.size
    &&& bouquet.total == design.total
    &&& bouquet.stems@ == trimmed(raw_takes(design.stems@, stock), design.total as nat)
}

/// What one arrival does. A flower of `kind` arrives at a catalog whose stock
/// is `stock`; `left` is the stock afterwards and `bouquet` what was assembled.
/// The flower goes into the stock. If it completes no design, nothing else
/// happens. Otherwise the bouquet is the first design it completes, filled
/// from that stock, and each of its stems has left the stock.
pub open spec fn arrival(
    designs: Seq<DesignSpec>,
    stock: Map<char, nat>,
    kind: char,
    left: Map<char, nat>,
    bouquet: Option<Bouquet>,
) -> bool {
    let after = stocked(stock, kind);
    match bouquet {
        None => {
            &&& forall|i: int|
                0 <= i < designs.len() ==> !completes(#[trigger] designs[i], kind, after)
            &&& left == after
        },
        Some(b) => {
            &&& exists|i: int|
                first_completed(designs, kind, after, i) && assembled_from(
                    b,
                    #[trigger] designs[i],
                    after,
                )
            &&& forall|other: char|
                (#[trigger] left[other]) + amount_of(b.stems@, other) == after[other]
        },
    }
}

/// Whether no design with at least one stem entry can be filled from the stock.
pub open spec fn idle(designs: Seq<DesignSpec>, stock: Map<char, nat>) -> bool {
    forall|i: int|
        0 <= i < designs.len() && (#[trigger] designs[i]).stems@.len() > 0 ==> !fills(
            designs[i].stems@,
            designs[i].total as nat,
            stock,
        )
}

/// Takes the stems of a bouquet out of the stock.
fn deduct(inventory: &mut Inventory, stems: &Vec<DesignStem>)
    requires
        distinct_kinds(stems@),
        forall|i: int|
            0 <= i < stems@.len() ==> (#[trigger] stems@[i]).amount <= old(
                inventory,
            )@[stems@[i].name],
    ensures
        forall|kind: char|
            (#[trigger] final(inventory)@[kind]) + amount_of(stems@, kind) == old(inventory)@[kind],
{
    let mut i: usize = 0;
    while i < stems.len()
        invariant
            i <= stems.len(),
            distinct_kinds(stems@),
            forall|j: int|
                0 <= j < stems@.len() ==> (#[trigger] stems@[j]).amount <= old(
                    inventory,
                )@[stems@[j].name],
            forall|kind: char|
                (#[trigger] inventory@[kind]) + amount_of(stems@.take(i as int), kind) == old(
                    inventory,
                )@[kind],
        decreases stems.len() - i,
    {
        let stem = stems[i];
        proof {
            let done = stems@.take(i as int);
            assert forall|j: int| 0 <= j < done.len() implies (#[trigger] done[j]).name
                != stem.name by {
                assert(stems@[j].name != stems@[i as int].name);
            }
            lemma_amount_of_unlisted(done, stem.name);
            assert(stems@.take(i + 1).drop_last() =~= done);
        }
        inventory.remove(stem.name, stem.amount as u16);
        i += 1;
    }
    assert(stems@.take(i as int) =~= stems@);
}

/// The assembler of one size class.
pub struct Assember<'a> {
    designs: &'a Vec<DesignSpec>,
    inventory: Inventory,
}

impl<'a> Assember<'a> {
    /// The catalog, in the order in which designs are tried.
    pub closed spec fn designs(&self) -> Seq<DesignSpec> {
        self.designs@
    }

    /// The stock: the number of stems on hand of every kind.
    pub closed spec fn inventory(&self) -> Map<char, nat> {
        self.inventory@
    }

    /// What holds of an assembler between arrivals: every design of the
    /// catalog is usable, the stock has a count for every kind, and no design
    /// with a stem entry is waiting to be assembled.
    pub open spec fn well_formed(&self) -> bool {
        &&& forall|i: int|
            0 <= i < self.designs().len() ==> (#[trigger] self.designs()[i]).usable()
        &&& self.inventory().dom() == Set::<char>::full()
        &&& idle(self.designs(), self.inventory())
    }

    /// An assembler for the given catalog, with an empty stock.
    pub fn new(designs: &'a Vec<DesignSpec>) -> (assembler: Self)
        requires
            forall|i: int| 0 <= i < designs@.len() ==> (#[trigger] designs@[i]).usable(),
        ensures
            assembler.well_formed(),
            assembler.designs() == designs@,
            assembler.inventory() == Map::total(|kind: char| 0nat),
    {
        let assembler = Assember { designs, inventory: Inventory::new() };
        proof {
            let stock = assembler.inventory();
            assert forall|i: int|
                0 <= i < designs@.len() && (#[trigger] designs@[i]).stems@.len() > 0 implies !fills(
                designs@[i].stems@,
                designs@[i].total as nat,
                stock,
            ) by {
                assert(raw_takes(designs@[i].stems@, stock)[0].amount == 0);
            }
        }
        assembler
    }

    /// The number of stems of the given kind on hand.
    pub fn stock_of(&self, kind: char) -> (n: u16)
        ensures
            n == self.inventory()[kind],
    {
        self.inventory.count(kind)
    }

    /// Takes in one flower. The flower goes into the stock; then the first
    /// design of the catalog that lists its kind and that the stock now fills
    /// is assembled, and its stems leave the stock.
    pub fn add_flower(&mut self, flower: Flower) -> (bouquet: Option<Bouquet>)
        requires
            old(self).well_formed(),
            old(self).inventory()[flower.name] < u16::MAX,
        ensures
            final(self).well_formed(),
            final(self).designs() == old(self).designs(),
            arrival(
                old(self).designs(),
                old(self).inventory(),
                flower.name,
                final(self).inventory(),
                bouquet,
            ),
            bouquet is None ==> final(self).inventory() == old(self).inventory().insert(
                flower.name,
                old(self).inventory()[flower.name] + 1,
            ),
            bouquet matches Some(b) ==> {
                &&& stem_sum(b.stems@) == b.total
                &&& distinct_kinds(b.stems@)
                &&& has_kind(b.stems@, flower.name)
                &&& forall|k: int| 0 <= k < b.stems@.len() ==> (#[trigger] b.stems@[k]).amount >= 1
                &&& forall|k: int|
                    0 <= k < b.stems@.len() ==> {
                        let stem = #[trigger] b.stems@[k];
                        final(self).inventory()[stem.name] + stem.amount == stocked(
                            old(self).inventory(),
                            flower.name,
                        )[stem.name]
                    }
                &&& forall|kind: char|
                    !has_kind(b.stems@, kind) ==> (#[trigger] final(self).inventory()[kind]) == old(
                        self,
                    ).inventory()[kind]
            },
    {
        let designs: &'a Vec<DesignSpec> = self.designs;
        self.inventory.add_one(flower.name);
        let ghost stock = self.inventory@;
        let mut i: usize = 0;
        while i < designs.len()
            invariant
                i <= designs.len(),
                designs == old(self).designs,
                self.designs == designs,
                self.inventory@ == stock,
                stock == stocked(old(self).inventory(), flower.name),
                old(self).well_formed(),
                forall|j: int|
                    0 <= j < i ==> !completes(#[trigger] designs@[j], flower.name, stock),
            decreases designs.len() - i,
        {
            let design = &designs[i];
            assert(designs@[i as int].usable());
            if design.has_stem(flower.name) {
                if let Some(stems) = assemble(design, &self.inventory) {
                    proof {
                        let raw = raw_takes(design.stems@, stock);
                        lemma_trimmed_shape(raw, design.total as nat, 0, 0);
                        assert forall|k: int| 0 <= k < stems@.len() implies {
                            &&& (#[trigger] stems@[k]).name == design.stems@[k].name
                            &&& stems@[k].amount <= stock[stems@[k].name]
                        } by {
                            assert(raw[k].amount >= 1);
                            assert(raw[k] == take_of(design.stems@[k], stock));
                        }
                    }
                    deduct(&mut self.inventory, &stems);
                    let bouquet = Bouquet {
                        design: design.design,
                        size: design.size,
                        stems,
                        total: design.total,
                    };
                    proof {
                        assert(first_completed(old(self).designs(), flower.name, stock, i as int));
                        assert(assembled_from(bouquet, old(self).designs()[i as int], stock));
                        let taken = bouquet.stems@;
                        let left = self.inventory@;
                        let listed = choose|k: int|
                            0 <= k < design.stems@.len() && (#[trigger] design.stems@[k]).name
                                == flower.name;
                        assert(taken[listed].name == flower.name);
                        assert forall|k: int| 0 <= k < taken.len() implies left[(
                        #[trigger] taken[k]).name] + taken[k].amount == stock[taken[k].name] by {
                            lemma_amount_of_entry(taken, k);
                        }
                        assert forall|kind: char| !has_kind(taken, kind) implies (
                        #[trigger] left[kind]) == old(self).inventory()[kind] by {
                            lemma_amount_of_unlisted(taken, kind);
                        }
                        lemma_settles(
                            old(self).designs(),
                            old(self).inventory(),
                            flower.name,
                            i as int,
                            bouquet.stems@,
                            self.inventory@,
                        );
                    }
                    return Some(bouquet);
                }
            }
            i += 1;
        }
        proof {
            lemma_stays_idle(old(self).designs(), old(self).inventory(), flower.name);
        }
        None
    }
}

/// After an arrival that completes no design, still no design is waiting.
pub proof fn lemma_stays_idle(designs: Seq<DesignSpec>, stock: Map<char, nat>, kind: char)
    requires
        idle(designs, stock),
        forall|i: int|
            0 <= i < designs.len() ==> !completes(
                #[trigger] designs[i],
                kind,
                stocked(stock, kind),
            ),
    ensures
        idle(designs, stocked(stock, kind)),
{
    let after = stocked(stock, kind);
    assert forall|i: int|
        0 <= i < designs.len() && (#[trigger] designs[i]).stems@.len() > 0 implies !fills(
        designs[i].stems@,
        designs[i].total as nat,
        after,
    ) by {
        let stems = designs[i].stems@;
        if has_kind(stems, kind) {
            assert(!completes(designs[i], kind, after));
        } else {
            if fills(stems, designs[i].total as nat, after) {
                assert forall|k: int| 0 <= k < stems.len() implies after[(#[trigger] stems[k]).name]
                    <= stock[stems[k].name] by {
                    assert(stems[k].name != kind);
                }
                lemma_fills_monotone(stems, designs[i].total as nat, after, stock);
            }
        }
    }
}

/// After a bouquet has left the stock, no design is waiting: the bouquet held
/// a stem of the kind that arrived, so no kind is better stocked than before
/// the arrival.
pub proof fn lemma_settles(
    designs: Seq<DesignSpec>,
    stock: Map<char, nat>,
    kind: char,
    chosen: int,
    bouquet: Seq<DesignStem>,
    left: Map<char, nat>,
)
    requires
        idle(designs, stock),
        0 <= chosen < designs.len(),
        has_kind(designs[chosen].stems@, kind),
        bouquet.len() == designs[chosen].stems@.len(),
        forall|k: int|
            0 <= k < bouquet.len() ==> {
                &&& (#[trigger] bouquet[k]).name == designs[chosen].stems@[k].name
                &&& bouquet[k].amount >= 1
            },
        forall|other: char|
            (#[trigger] left[other]) + amount_of(bouquet, other) == stocked(stock, kind)[other],
    ensures
        idle(designs, left),
{
    let listed = designs[chosen].stems@;
    let k = choose|k: int| 0 <= k < listed.len() && (#[trigger] listed[k]).name == kind;
    assert(bouquet[k].name == kind);
    lemma_amount_of_listed(bouquet, k);
    assert(left[kind] <= stock[kind]);
    assert forall|i: int|
        0 <= i < designs.len() && (#[trigger] designs[i]).stems@.len() > 0 implies !fills(
        designs[i].stems@,
        designs[i].total as nat,
        left,
    ) by {
        let stems = designs[i].stems@;
        if fills(stems, designs[i].total as nat, left) {
            assert forall|j: int| 0 <= j < stems.len() implies left[(#[trigger] stems[j]).name]
                <= stock[stems[j].name] by {
                let other = stems[j].name;
                assert(left[other] + amount_of(bouquet, other) == stocked(stock, kind)[other]);
            }
            lemma_fills_monotone(stems, designs[i].total as nat, left, stock);
        }
    }
}

/// First match wins. Where the stock after an arrival fills two designs of
/// the catalog, a bouquet is assembled, and from a design that stands no
/// later than the earlier of the two. The earlier design must have a stem
/// entry: one without any is filled by every stock and completed by no arrival.
pub proof fn lemma_first_match_wins(
    assembler: Assember,
    flower: Flower,
    earlier: int,
    later: int,
    left: Map<char, nat>,
    bouquet: Option<Bouquet>,
)
    requires
        assembler.well_formed(),
        0 <= earlier < later < assembler.designs().len(),
        assembler.designs()[earlier].stems@.len() > 0,
        fills(
            assembler.designs()[earlier].stems@,
            assembler.designs()[earlier].total as nat,
            stocked(assembler.inventory(), flower.name),
        ),
        fills(
            assembler.designs()[later].stems@,
            assembler.designs()[later].total as nat,
            stocked(assembler.inventory(), flower.name),
        ),
        arrival(assembler.designs(), assembler.inventory(), flower.name, left, bouquet),
    ensures
        bouquet matches Some(b) && exists|i: int|
            0 <= i <= earlier && assembled_from(
                b,
                #[trigger] assembler.designs()[i],
                stocked(assembler.inventory(), flower.name),
            ),
{
    let designs = assembler.designs();
    let stock = assembler.inventory();
    let after = stocked(stock, flower.name);
    let stems = designs[earlier].stems@;
    assert(has_kind(stems, flower.name)) by {
        if !has_kind(stems, flower.name) {
            assert forall|k: int| 0 <= k < stems.len() implies after[(#[trigger] stems[k]).name]
                <= stock[stems[k].name] by {
                assert(stems[k].name != flower.name);
            }
            lemma_fills_monotone(stems, designs[earlier].total as nat, after, stock);
        }
    }
    assert(completes(designs[earlier], flower.name, after));
    let b = bouquet->0;
    let i = choose|i: int|
        first_completed(designs, flower.name, after, i) && assembled_from(
            b,
            #[trigger] designs[i],
            after,
        );
    assert(i <= earlier);
}

/// An arrival has one outcome only: the catalog, the stock and the kind of
/// the flower decide whether a bouquet is assembled, which one, and what
/// stock is left.
pub proof fn lemma_arrival_decided(
    designs: Seq<DesignSpec>,
    stock: Map<char, nat>,
    kind: char,
    left: Map<char, nat>,
    bouquet: Option<Bouquet>,
    other_left: Map<char, nat>,
    other_bouquet: Option<Bouquet>,
)
    requires
        stock.dom() == Set::<char>::full(),
        left.dom() == Set::<char>::full(),
        other_left.dom() == Set::<char>::full(),
        arrival(designs, stock, kind, left, bouquet),
        arrival(designs, stock, kind, other_left, other_bouquet),
    ensures
        left == other_left,
        bouquet is Some <==> other_bouquet is Some,
        bouquet is Some ==> bouquet->0@ == other_bouquet->0@,
{
    let after = stocked(stock, kind);
    if bouquet is Some {
        let b = bouquet->0;
        let i = choose|i: int|
            first_completed(designs, kind, after, i) && assembled_from(
                b,
                #[trigger] designs[i],
                after,
            );
        assert(completes(designs[i], kind, after));
        let c = other_bouquet->0;
        let j = choose|j: int|
            first_completed(designs, kind, after, j) && assembled_from(
                c,
                #[trigger] designs[j],
                after,
            );
        assert(i == j);
        assert(b@ == c@);
        assert forall|k: char| #[trigger] left[k] == other_left[k] by {
            assert(left[k] + amount_of(b.stems@, k) == after[k]);
            assert(other_left[k] + amount_of(c.stems@, k) == after[k]);
        }
        assert(left =~= other_left);
    } else {
        if other_bouquet is Some {
            let c = other_bouquet->0;
            let j = choose|j: int|
                first_completed(designs, kind, after, j) && assembled_from(
                    c,
                    #[trigger] designs[j],
                    after,
                );
            assert(completes(designs[j], kind, after));
        }
    }
}

} // verus!
