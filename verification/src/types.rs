//! The data model: size classes, stems, designs, bouquets and flowers.

use vstd::prelude::*;

verus! {

/// The two size classes. A design only ever applies to flowers of its own class.
#[derive(Debug, Clone, Copy, PartialEq, Eq, Structural)]
pub enum StemSize {
    S,
    L,
}

/// A number of stems of one kind: a cap in a design, a count in a bouquet.
#[derive(Debug, Clone, Copy, PartialEq, Eq, Structural)]
pub struct DesignStem {
    pub amount: u8,
    pub name: char,
}

/// A design: which kinds go into the bouquet, at most how many of each, and
/// how many stems the bouquet holds in all.
#[derive(Debug, PartialEq, Eq)]
pub struct DesignSpec {
    pub design: char,
    pub size: StemSize,
    pub stems: Vec<DesignStem>,
    pub total: u16,
}

/// A design as a value of its own, apart from the memory that holds it.
pub struct Recipe {
    pub design: char,
    pub size: StemSize,
    pub stems: Seq<DesignStem>,
    pub total: u16,
}

impl View for DesignSpec {
    type V = Recipe;

    open spec fn view(&self) -> Recipe {
        Recipe { design: self.design, size: self.size, stems: self.stems@, total: self.total }
    }
}

/// An assembled design: the stems hold the amounts actually used.
pub type Bouquet = DesignSpec;

/// One arriving flower.
#[derive(Debug, Clone, Copy, PartialEq, Eq, Structural)]
pub struct Flower {
    pub name: char,
    pub size: StemSize,
}

/// The number of stems in a list, all kinds together.
pub open spec fn stem_sum(stems: Seq<DesignStem>) -> nat
    decreases stems.len(),
{
    if stems.len() == 0 {
        0
    } else {
        stem_sum(stems.drop_last()) + stems.last().amount as nat
    }
}

/// Whether some entry of the list is of the given kind.
pub open spec fn has_kind(stems: Seq<DesignStem>, kind: char) -> bool {
    exists|i: int| 0 <= i < stems.len() && #[trigger] stems[i].name == kind
}

/// Whether no kind is listed twice.
pub open spec fn distinct_kinds(stems: Seq<DesignStem>) -> bool {
    forall|i: int, j: int|
        0 <= i < j < stems.len() ==> (#[trigger] stems[i]).name != (#[trigger] stems[j]).name
}

/// The number of stems of the given kind in a list; zero where the kind is not listed.
pub open spec fn amount_of(stems: Seq<DesignStem>, kind: char) -> nat
    decreases stems.len(),
{
    if stems.len() == 0 {
        0
    } else if stems.last().name == kind {
        amount_of(stems.drop_last(), kind) + stems.last().amount as nat
    } else {
        amount_of(stems.drop_last(), kind)
    }
}

/// A kind that a list does not mention has no stems in it.
pub proof fn lemma_amount_of_unlisted(stems: Seq<DesignStem>, kind: char)
    requires
        !has_kind(stems, kind),
    ensures
        amount_of(stems, kind) == 0,
    decreases stems.len(),
{
    if stems.len() > 0 {
        assert(stems[stems.len() - 1].name != kind);
        assert forall|i: int| 0 <= i < stems.drop_last().len() implies (
        #[trigger] stems.drop_last()[i]).name != kind by {
            assert(stems[i].name != kind);
        }
        lemma_amount_of_unlisted(stems.drop_last(), kind);
    }
}

/// A kind that a list mentions has at least as many stems in it as any entry of that kind.
pub proof fn lemma_amount_of_listed(stems: Seq<DesignStem>, i: int)
    requires
        0 <= i < stems.len(),
    ensures
        amount_of(stems, stems[i].name) >= stems[i].amount,
    decreases stems.len(),
{
    if i < stems.len() - 1 {
        lemma_amount_of_listed(stems.drop_last(), i);
    }
}

/// Where no kind is listed twice, the stems of a listed kind are those of its one entry.
pub proof fn lemma_amount_of_entry(stems: Seq<DesignStem>, i: int)
    requires
        distinct_kinds(stems),
        0 <= i < stems.len(),
    ensures
        amount_of(stems, stems[i].name) == stems[i].amount,
    decreases stems.len(),
{
    let rest = stems.drop_last();
    if i < stems.len() - 1 {
        assert(stems.last().name != stems[i].name);
        assert(distinct_kinds(rest)) by {
            assert forall|a: int, b: int| 0 <= a < b < rest.len() implies (#[trigger] rest[a]).name
                != (#[trigger] rest[b]).name by {
                assert(stems[a].name != stems[b].name);
            }
        }
        lemma_amount_of_entry(rest, i);
    } else {
        assert forall|j: int| 0 <= j < rest.len() implies (#[trigger] rest[j]).name
            != stems[i].name by {
            assert(stems[j].name != stems[i].name);
        }
        lemma_amount_of_unlisted(rest, stems[i].name);
    }
}

/// Tells whether some entry of the list is of the given kind.
pub fn lists(stems: &Vec<DesignStem>, kind: char) -> (found: bool)
    ensures
        found == has_kind(stems@, kind),
{
    let mut i: usize = 0;
    while i < stems.len()
        invariant
            i <= stems.len(),
            forall|j: int| 0 <= j < i ==> (#[trigger] stems@[j]).name != kind,
        decreases stems.len() - i,
    {
        if stems[i].name == kind {
            return true;
        }
        i += 1;
    }
    false
}

impl DesignSpec {
    /// A design can be filled at all when it has no more entries than stems
    /// (every kind contributes at least one) and its caps together reach the total.
    pub open spec fn satisfiable(&self) -> bool {
        &&& self.stems@.len() <= self.total
        &&& self.total <= stem_sum(self.stems@)
    }

    /// What a design must satisfy to stand in an assembler's catalog: no kind
    /// is listed twice, and there are no more entries than stems in the bouquet.
    pub open spec fn usable(&self) -> bool {
        &&& distinct_kinds(self.stems@)
        &&& self.stems@.len() <= self.total
    }

    /// Whether the design lists the given kind of stem.
    pub fn has_stem(&self, stem_name: char) -> (found: bool)
        ensures
            found == has_kind(self.stems@, stem_name),
    {
        lists(&self.stems, stem_name)
    }

    /// Tells whether the design may stand in an assembler's catalog.
    pub fn is_usable(&self) -> (ok: bool)
        ensures
            ok == self.usable(),
    {
        if self.stems.len() > self.total as usize {
            return false;
        }
        let mut i: usize = 0;
        while i < self.stems.len()
            invariant
                i <= self.stems.len(),
                forall|a: int, b: int|
                    0 <= a < b < i ==> (#[trigger] self.stems@[a]).name
                        != (#[trigger] self.stems@[b]).name,
            decreases self.stems.len() - i,
        {
            let mut j: usize = 0;
            while j < i
                invariant
                    j <= i < self.stems.len(),
                    forall|a: int|
                        0 <= a < j ==> (#[trigger] self.stems@[a]).name
                            != self.stems@[i as int].name,
                decreases i - j,
            {
                if self.stems[j].name == self.stems[i].name {
                    return false;
                }
                j += 1;
            }
            i += 1;
        }
        true
    }

    /// Turns the design into a bouquet made of the given stems.
    pub fn to_bouqet(self, configuration: Vec<DesignStem>) -> (bouquet: Bouquet)
        ensures
            bouquet.design == self.design,
            bouquet.size == self.size,
            bouquet.stems == configuration,
            bouquet.total == self.total,
    {
        Bouquet { design: self.design, size: self.size, stems: configuration, total: self.total }
    }
}

} // verus!
