//! Filling one design from the stock: what may be drawn of each kind, when
//! that is enough, and how the surplus is trimmed away.

use crate::inventory::Inventory;
use crate::types::{stem_sum, DesignSpec, DesignStem};
use vstd::prelude::*;

verus! {

/// What the stock lets a design draw for one of its entries: the entry's cap
/// or the number on hand, whichever is less.
pub open spec fn take_of(stem: DesignStem, stock: Map<char, nat>) -> DesignStem {
    DesignStem {
        amount: if stock[stem.name] < stem.amount {
            stock[stem.name] as u8
        } else {
            stem.amount
        },
        name: stem.name,
    }
}

/// The draw for every entry of a design, in the design's order.
pub open spec fn raw_takes(stems: Seq<DesignStem>, stock: Map<char, nat>) -> Seq<DesignStem> {
    Seq::new(stems.len(), |i: int| take_of(stems[i], stock))
}

/// Whether the stock can fill a design: something can be drawn for every
/// entry, and all that can be drawn reaches the total.
pub open spec fn fills(stems: Seq<DesignStem>, total: nat, stock: Map<char, nat>) -> bool {
    &&& forall|i: int| 0 <= i < stems.len() ==> (#[trigger] raw_takes(stems, stock)[i]).amount >= 1
    &&& stem_sum(raw_takes(stems, stock)) >= total
}

/// An amount that never drops below one.
pub open spec fn floor_one(amount: int) -> int {
    if amount < 1 {
        1
    } else {
        amount
    }
}

/// The stems after `rounds` sweeps over the whole list and one more sweep over
/// its first `upto` entries. A sweep takes one stem from every entry it passes
/// that still has more than one.
pub open spec fn swept(stems: Seq<DesignStem>, rounds: nat, upto: int) -> Seq<DesignStem> {
    Seq::new(
        stems.len(),
        |i: int|
            DesignStem {
                amount: floor_one(
                    stems[i].amount - rounds - if i < upto {
                        1int
                    } else {
                        0int
                    },
                ) as u8,
                name: stems[i].name,
            },
    )
}

/// The highest number of sweeps that can matter: after so many, every entry is down to one stem.
pub open spec fn last_round() -> nat {
    255
}

/// The first list, in the order in which sweeping goes through them from
/// `rounds` sweeps and `upto` entries on, that holds no more than `total` stems.
pub open spec fn trimmed_from(raw: Seq<DesignStem>, total: nat, rounds: nat, upto: int) -> Seq<
    DesignStem,
>
    decreases last_round() - rounds, raw.len() - upto,
{
    let now = swept(raw, rounds, upto);
    if stem_sum(now) <= total || rounds >= last_round() {
        now
    } else if upto < raw.len() {
        trimmed_from(raw, total, rounds, upto + 1)
    } else {
        trimmed_from(raw, total, rounds + 1, 0)
    }
}

/// A draw trimmed to `total` stems: what sweeping leaves of it at the moment
/// it holds no more than that.
pub open spec fn trimmed(raw: Seq<DesignStem>, total: nat) -> Seq<DesignStem> {
    trimmed_from(raw, total, 0, 0)
}

/// Replacing one entry changes the sum by the difference of the two amounts.
pub proof fn lemma_stem_sum_update(stems: Seq<DesignStem>, i: int, stem: DesignStem)
    requires
        0 <= i < stems.len(),
    ensures
        stem_sum(stems.update(i, stem)) == stem_sum(stems) - stems[i].amount + stem.amount,
    decreases stems.len(),
{
    let updated = stems.update(i, stem);
    if i == stems.len() - 1 {
        assert(updated.drop_last() =~= stems.drop_last());
    } else {
        assert(updated.drop_last() =~= stems.drop_last().update(i, stem));
        lemma_stem_sum_update(stems.drop_last(), i, stem);
    }
}

/// The sum of a list lies between the sums of its least and greatest possible amounts.
pub proof fn lemma_stem_sum_bounds(stems: Seq<DesignStem>, low: nat, high: nat)
    requires
        forall|i: int| 0 <= i < stems.len() ==> low <= (#[trigger] stems[i]).amount <= high,
    ensures
        low * stems.len() <= stem_sum(stems) <= high * stems.len(),
    decreases stems.len(),
{
    if stems.len() > 0 {
        lemma_stem_sum_bounds(stems.drop_last(), low, high);
        assert(low * stems.len() == low * (stems.len() - 1) + low) by (nonlinear_arith);
        assert(high * stems.len() == high * (stems.len() - 1) + high) by (nonlinear_arith);
    } else {
        assert(low * stems.len() == 0) by (nonlinear_arith)
            requires
                stems.len() == 0,
        ;
        assert(high * stems.len() == 0) by (nonlinear_arith)
            requires
                stems.len() == 0,
        ;
    }
}

/// Where no entry of one list exceeds the entry at its place in another,
/// neither does the sum.
pub proof fn lemma_stem_sum_monotone(low: Seq<DesignStem>, high: Seq<DesignStem>)
    requires
        low.len() == high.len(),
        forall|i: int| 0 <= i < low.len() ==> (#[trigger] low[i]).amount <= high[i].amount,
    ensures
        stem_sum(low) <= stem_sum(high),
    decreases low.len(),
{
    if low.len() > 0 {
        lemma_stem_sum_monotone(low.drop_last(), high.drop_last());
    }
}

/// A design that a stock fills is filled by every stock that holds at least
/// as much of each kind the design lists.
pub proof fn lemma_fills_monotone(
    stems: Seq<DesignStem>,
    total: nat,
    low: Map<char, nat>,
    high: Map<char, nat>,
)
    requires
        forall|i: int|
            0 <= i < stems.len() ==> low[(#[trigger] stems[i]).name] <= high[stems[i].name],
        fills(stems, total, low),
    ensures
        fills(stems, total, high),
{
    let a = raw_takes(stems, low);
    let b = raw_takes(stems, high);
    assert forall|i: int| 0 <= i < stems.len() implies (#[trigger] a[i]).amount <= b[i].amount by {
        assert(low[stems[i].name] <= high[stems[i].name]);
    }
    lemma_stem_sum_monotone(a, b);
    assert forall|i: int| 0 <= i < stems.len() implies (#[trigger] b[i]).amount >= 1 by {
        assert(a[i].amount >= 1);
    }
}

/// Trimming keeps every entry in its place, under its kind, with at least one
/// stem and no more stems than it had.
pub proof fn lemma_trimmed_shape(raw: Seq<DesignStem>, total: nat, rounds: nat, upto: int)
    ensures
        trimmed_from(raw, total, rounds, upto).len() == raw.len(),
        forall|i: int|
            0 <= i < raw.len() ==> {
                &&& (#[trigger] trimmed_from(raw, total, rounds, upto)[i]).name == raw[i].name
                &&& trimmed_from(raw, total, rounds, upto)[i].amount >= 1
                &&& raw[i].amount >= 1 ==> trimmed_from(raw, total, rounds, upto)[i].amount
                    <= raw[i].amount
            },
    decreases last_round() - rounds, raw.len() - upto,
{
    let now = swept(raw, rounds, upto);
    if stem_sum(now) <= total || rounds >= last_round() {
    } else if upto < raw.len() {
        lemma_trimmed_shape(raw, total, rounds, upto + 1);
    } else {
        lemma_trimmed_shape(raw, total, rounds + 1, 0);
    }
}

/// Trimming is exact: a draw with a stem for every entry, no more entries
/// than `total` and no fewer stems, is trimmed to `total` stems, never more,
/// never less.
pub proof fn lemma_trimmed_exact(raw: Seq<DesignStem>, total: nat, rounds: nat, upto: int)
    requires
        forall|i: int| 0 <= i < raw.len() ==> (#[trigger] raw[i]).amount >= 1,
        0 <= upto <= raw.len(),
        raw.len() <= total <= stem_sum(swept(raw, rounds, upto)),
    ensures
        stem_sum(trimmed_from(raw, total, rounds, upto)) == total,
    decreases last_round() - rounds, raw.len() - upto,
{
    let now = swept(raw, rounds, upto);
    if stem_sum(now) <= total {
    } else if rounds >= last_round() {
        lemma_stem_sum_bounds(now, 1, 1);
    } else if upto < raw.len() {
        let next = swept(raw, rounds, upto + 1);
        assert(next =~= now.update(upto, next[upto]));
        lemma_stem_sum_update(now, upto, next[upto]);
        lemma_trimmed_exact(raw, total, rounds, upto + 1);
    } else {
        assert(swept(raw, rounds + 1, 0) =~= now);
        lemma_trimmed_exact(raw, total, rounds + 1, 0);
    }
}

/// While more than `total` stems are left of a draw that can be trimmed to
/// `total`, the last round has not been reached.
proof fn lemma_not_yet_settled(raw: Seq<DesignStem>, total: nat, rounds: nat, upto: int)
    requires
        0 <= upto <= raw.len(),
        raw.len() <= total < stem_sum(swept(raw, rounds, upto)),
    ensures
        rounds < last_round(),
{
    if rounds >= last_round() {
        lemma_stem_sum_bounds(swept(raw, rounds, upto), 1, 1);
    }
}

/// Computes what the stock lets a design draw for each of its entries.
fn draw(stems: &Vec<DesignStem>, inventory: &Inventory) -> (takes: Vec<DesignStem>)
    ensures
        takes@ == raw_takes(stems@, inventory@),
{
    let mut takes: Vec<DesignStem> = Vec::new();
    let mut i: usize = 0;
    while i < stems.len()
        invariant
            i <= stems.len(),
            takes@.len() == i,
            forall|j: int| 0 <= j < i ==> takes@[j] == take_of(stems@[j], inventory@),
        decreases stems.len() - i,
    {
        let stem = stems[i];
        let on_hand: u16 = inventory.count(stem.name);
        let amount: u8 = if on_hand < stem.amount as u16 {
            on_hand as u8
        } else {
            stem.amount
        };
        takes.push(DesignStem { amount, name: stem.name });
        i += 1;
    }
    assert(takes@ =~= raw_takes(stems@, inventory@));
    takes
}

/// Sweeps the list, taking one stem at a time from every entry that has more
/// than one, until `surplus` stems are gone.
fn trim(stems: &mut Vec<DesignStem>, surplus: u32)
    requires
        forall|i: int| 0 <= i < old(stems)@.len() ==> (#[trigger] old(stems)@[i]).amount >= 1,
        old(stems)@.len() + surplus <= stem_sum(old(stems)@),
    ensures
        final(stems)@ == trimmed(old(stems)@, (stem_sum(old(stems)@) - surplus) as nat),
        stem_sum(final(stems)@) == stem_sum(old(stems)@) - surplus,
{
    let ghost raw = stems@;
    let ghost total = (stem_sum(raw) - surplus) as nat;
    let ghost mut rounds: nat = 0;
    let ghost mut upto: int = 0;
    let mut surplus = surplus;
    assert(stems@ =~= swept(raw, 0, 0));
    while surplus > 0
        invariant
            stems@ == swept(raw, rounds, upto),
            trimmed_from(raw, total, rounds, upto) == trimmed(raw, total),
            0 <= upto <= raw.len(),
            surplus > 0 ==> upto == 0,
            forall|i: int| 0 <= i < raw.len() ==> (#[trigger] raw[i]).amount >= 1,
            stem_sum(stems@) == total + surplus,
            raw.len() <= total,
        decreases surplus,
    {
        let ghost before = surplus;
        let mut i: usize = 0;
        while i < stems.len() && surplus > 0
            invariant
                i <= stems.len(),
                stems@ == swept(raw, rounds, i as int),
                trimmed_from(raw, total, rounds, i as int) == trimmed(raw, total),
                forall|j: int| 0 <= j < raw.len() ==> (#[trigger] raw[j]).amount >= 1,
                stem_sum(stems@) == total + surplus,
                raw.len() <= total,
                surplus <= before,
                surplus == before ==> forall|j: int|
                    0 <= j < i ==> (#[trigger] stems@[j]).amount <= 1,
            decreases stems.len() - i,
        {
            let stem = stems[i];
            let ghost prior = stems@;
            proof {
                lemma_not_yet_settled(raw, total, rounds, i as int);
            }
            if stem.amount > 1 {
                stems.set(i, DesignStem { amount: stem.amount - 1, name: stem.name });
                surplus -= 1;
                proof {
                    lemma_stem_sum_update(
                        prior,
                        i as int,
                        DesignStem { amount: (stem.amount - 1) as u8, name: stem.name },
                    );
                }
            }
            i += 1;
            assert(stems@ =~= swept(raw, rounds, i as int));
        }
        proof {
            if surplus > 0 {
                assert(i == stems.len());
                if surplus == before {
                    lemma_stem_sum_bounds(stems@, 0, 1);
                }
                lemma_not_yet_settled(raw, total, rounds, i as int);
                assert(stems@ =~= swept(raw, rounds + 1, 0));
                rounds = rounds + 1;
                upto = 0;
            } else {
                upto = i as int;
            }
        }
    }
}

/// Tries to fill a design from the stock. Where the stock suffices, the
/// result is the draw trimmed to the design's total.
pub fn assemble(design: &DesignSpec, inventory: &Inventory) -> (stems: Option<Vec<DesignStem>>)
    requires
        design.stems@.len() <= design.total,
    ensures
        stems is Some <==> fills(design.stems@, design.total as nat, inventory@),
        stems matches Some(stems) ==> {
            &&& stems@ == trimmed(raw_takes(design.stems@, inventory@), design.total as nat)
            &&& stem_sum(stems@) == design.total
        },
{
    let mut takes = draw(&design.stems, inventory);
    let mut drawn: u32 = 0;
    let mut i: usize = 0;
    while i < takes.len()
        invariant
            i <= takes.len(),
            takes@.len() <= u16::MAX,
            takes@ == raw_takes(design.stems@, inventory@),
            forall|j: int| 0 <= j < i ==> (#[trigger] takes@[j]).amount >= 1,
            drawn == stem_sum(takes@.take(i as int)),
            drawn <= 255 * i,
        decreases takes.len() - i,
    {
        if takes[i].amount == 0 {
            return None;
        }
        assert(takes@.take(i + 1).drop_last() =~= takes@.take(i as int));
        drawn += takes[i].amount as u32;
        i += 1;
    }
    assert(takes@.take(i as int) =~= takes@);
    if drawn < design.total as u32 {
        return None;
    }
    trim(&mut takes, drawn - design.total as u32);
    Some(takes)
}

} // verus!
