//! The catalog: which of the declared designs take part in matching.

use crate::types::{distinct_kinds, stem_sum, DesignSpec, StemSize};
use vstd::prelude::*;

verus! {

/// The designs of a list that can be filled at all, in the order of the list.
pub open spec fn satisfiable_of(designs: Seq<DesignSpec>) -> Seq<DesignSpec> {
    designs.filter(|design: DesignSpec| design.satisfiable())
}

/// The designs of a list that are of the given size class, in the order of the list.
pub open spec fn of_size(designs: Seq<DesignSpec>, size: StemSize) -> Seq<DesignSpec> {
    designs.filter(|design: DesignSpec| design.size == size)
}

/// Tells whether a design stays in the catalog. Despite its name the answer
/// is `true` for the designs to keep, those that can be filled at all: it is
/// the predicate to filter a list of designs by.
pub fn is_impossible_design(design: &DesignSpec) -> (keep: bool)
    ensures
        keep == design.satisfiable(),
{
    if design.stems.len() > design.total as usize {
        return false;
    }
    let mut design_maximum: u32 = 0;
    let mut i: usize = 0;
    while i < design.stems.len()
        invariant
            i <= design.stems.len() <= u16::MAX,
            design_maximum == stem_sum(design.stems@.take(i as int)),
            design_maximum <= 255 * i,
        decreases design.stems.len() - i,
    {
        assert(design.stems@.take(i + 1).drop_last() =~= design.stems@.take(i as int));
        design_maximum += design.stems[i].amount as u32;
        i += 1;
    }
    assert(design.stems@.take(i as int) =~= design.stems@);
    design_maximum >= design.total as u32
}

/// Drops the designs that can never be filled and keeps the others in their order.
pub fn retain_satisfiable(designs: Vec<DesignSpec>) -> (kept: Vec<DesignSpec>)
    ensures
        kept@ == satisfiable_of(designs@),
        forall|i: int| 0 <= i < kept@.len() ==> designs@.contains(#[trigger] kept@[i]),
        forall|i: int| 0 <= i < kept@.len() ==> (#[trigger] kept@[i]).satisfiable(),
        forall|i: int|
            0 <= i < designs@.len() && !kept@.contains(#[trigger] designs@[i])
                ==> !designs@[i].satisfiable(),
{
    let ghost all = designs@;
    let mut kept: Vec<DesignSpec> = Vec::new();
    for design in it: designs
        invariant
            it.seq() == all,
            kept@ == satisfiable_of(all.take(it.index() as int)),
            forall|i: int| 0 <= i < kept@.len() ==> all.contains(#[trigger] kept@[i]),
            forall|i: int| 0 <= i < kept@.len() ==> (#[trigger] kept@[i]).satisfiable(),
            forall|i: int|
                0 <= i < it.index() && (#[trigger] all[i]).satisfiable() ==> kept@.contains(all[i]),
    {
        let ghost before = kept@;
        proof {
            assert(all.take(it.index() + 1).drop_last() =~= all.take(it.index() as int));
            reveal(Seq::filter);
        }
        if is_impossible_design(&design) {
            kept.push(design);
        }
        proof {
            assert forall|i: int|
                0 <= i <= it.index() && (#[trigger] all[i]).satisfiable() implies kept@.contains(
                all[i],
            ) by {
                if i < it.index() {
                    let at = choose|at: int| 0 <= at < before.len() && before[at] == all[i];
                    assert(kept@[at] == all[i]);
                } else {
                    assert(kept@[kept@.len() - 1] == all[i]);
                }
            }
        }
    }
    assert(all.take(all.len() as int) =~= all);
    kept
}

/// Splits a list of designs by size class: the large ones first, the small
/// ones second, each part in the order of the list.
pub fn split_by_size(designs: Vec<DesignSpec>) -> (parts: (Vec<DesignSpec>, Vec<DesignSpec>))
    ensures
        parts.0@ == of_size(designs@, StemSize::L),
        parts.1@ == of_size(designs@, StemSize::S),
        forall|i: int|
            0 <= i < parts.0@.len() ==> {
                &&& designs@.contains(#[trigger] parts.0@[i])
                &&& parts.0@[i].size == StemSize::L
            },
        forall|i: int|
            0 <= i < parts.1@.len() ==> {
                &&& designs@.contains(#[trigger] parts.1@[i])
                &&& parts.1@[i].size == StemSize::S
            },
{
    let ghost all = designs@;
    let mut large: Vec<DesignSpec> = Vec::new();
    let mut small: Vec<DesignSpec> = Vec::new();
    for design in it: designs
        invariant
            it.seq() == all,
            large@ == of_size(all.take(it.index() as int), StemSize::L),
            small@ == of_size(all.take(it.index() as int), StemSize::S),
            forall|i: int|
                0 <= i < large@.len() ==> all.contains(#[trigger] large@[i]) && large@[i].size
                    == StemSize::L,
            forall|i: int|
                0 <= i < small@.len() ==> all.contains(#[trigger] small@[i]) && small@[i].size
                    == StemSize::S,
    {
        proof {
            assert(all.take(it.index() + 1).drop_last() =~= all.take(it.index() as int));
            reveal(Seq::filter);
        }
        match design.size {
            StemSize::L => large.push(design),
            StemSize::S => small.push(design),
        }
    }
    assert(all.take(all.len() as int) =~= all);
    (large, small)
}

/// Makes the two catalogs of a workshop from the declared designs: drops the
/// designs that can never be filled, then splits the others by size class,
/// the large ones first. Where no declared design lists a kind twice, every
/// design of the two catalogs is usable.
pub fn catalogs(designs: Vec<DesignSpec>) -> (parts: (Vec<DesignSpec>, Vec<DesignSpec>))
    ensures
        parts.0@ == of_size(satisfiable_of(designs@), StemSize::L),
        parts.1@ == of_size(satisfiable_of(designs@), StemSize::S),
        forall|i: int|
            0 <= i < parts.0@.len() ==> {
                &&& designs@.contains(#[trigger] parts.0@[i])
                &&& parts.0@[i].satisfiable()
                &&& parts.0@[i].size == StemSize::L
            },
        forall|i: int|
            0 <= i < parts.1@.len() ==> {
                &&& designs@.contains(#[trigger] parts.1@[i])
                &&& parts.1@[i].satisfiable()
                &&& parts.1@[i].size == StemSize::S
            },
        (forall|i: int| 0 <= i < designs@.len() ==> distinct_kinds((#[trigger] designs@[i]).stems@))
            ==> {
            &&& forall|i: int| 0 <= i < parts.0@.len() ==> (#[trigger] parts.0@[i]).usable()
            &&& forall|i: int| 0 <= i < parts.1@.len() ==> (#[trigger] parts.1@[i]).usable()
        },
{
    let kept = retain_satisfiable(designs);
    let ghost between = kept@;
    let parts = split_by_size(kept);
    proof {
        assert forall|i: int| 0 <= i < parts.0@.len() implies {
            &&& designs@.contains(#[trigger] parts.0@[i])
            &&& parts.0@[i].satisfiable()
        } by {
            let at = choose|at: int| 0 <= at < between.len() && between[at] == parts.0@[i];
            assert(designs@.contains(between[at]));
        }
        assert forall|i: int| 0 <= i < parts.1@.len() implies {
            &&& designs@.contains(#[trigger] parts.1@[i])
            &&& parts.1@[i].satisfiable()
        } by {
            let at = choose|at: int| 0 <= at < between.len() && between[at] == parts.1@[i];
            assert(designs@.contains(between[at]));
        }
    }
    parts
}

} // verus!
