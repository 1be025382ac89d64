//! Writing bouquets: the design's letter, the letter of the size class, and
//! each stem as its amount and its kind, with nothing in between.

use crate::parse::{stem_of, ParseError};
use crate::text::{decimal, lemma_decimal_reads_back, lowercase, push_decimal, symbols_of, values};
use crate::types::{DesignSpec, DesignStem, StemSize};
use vstd::prelude::*;

verus! {

/// The letter that stands for a size class.
pub open spec fn size_letter(size: StemSize) -> char {
    match size {
        StemSize::S => 'S',
        StemSize::L => 'L',
    }
}

/// A stem as text: the amount in decimal, then the kind.
pub open spec fn stem_text(stem: DesignStem) -> Seq<char> {
    decimal(stem.amount as nat).push(stem.name)
}

/// A list of stems as text: one stem after the other, in the list's order.
pub open spec fn stems_text(stems: Seq<DesignStem>) -> Seq<char>
    decreases stems.len(),
{
    if stems.len() == 0 {
        Seq::empty()
    } else {
        stems_text(stems.drop_last()) + stem_text(stems.last())
    }
}

/// A bouquet as text. The total is not written.
pub open spec fn bouquet_text(bouquet: DesignSpec) -> Seq<char> {
    seq![bouquet.design, size_letter(bouquet.size)] + stems_text(bouquet.stems@)
}

/// A stem that is written can be read back, if its kind is a lowercase letter.
pub proof fn lemma_stem_reads_back(stem: DesignStem)
    requires
        lowercase(stem.name),
    ensures
        stem_of(symbols_of(stem_text(stem))) == Ok::<DesignStem, ParseError>(stem),
{
    lemma_decimal_reads_back(stem.amount as nat);
    assert(values(symbols_of(stem_text(stem)).drop_last()) =~= decimal(stem.amount as nat));
}

/// Writes a stem at the end of a string.
fn push_stem(out: &mut String, stem: DesignStem)
    ensures
        final(out)@ == old(out)@ + stem_text(stem),
{
    push_decimal(out, stem.amount);
    out.push(stem.name);
    assert(out@ =~= old(out)@ + stem_text(stem));
}

impl StemSize {
    /// The letter that stands for the size class.
    pub fn letter(&self) -> (letter: char)
        ensures
            letter == size_letter(*self),
    {
        match self {
            StemSize::S => 'S',
            StemSize::L => 'L',
        }
    }

    /// The size class as text: its letter.
    pub fn to_string(&self) -> (text: String)
        ensures
            text@ == seq![size_letter(*self)],
    {
        let mut text = String::new();
        text.push(self.letter());
        assert(text@ =~= seq![size_letter(*self)]);
        text
    }
}

impl DesignStem {
    /// The stem as text: the amount in decimal, then the kind.
    pub fn to_string(&self) -> (text: String)
        ensures
            text@ == stem_text(*self),
    {
        let mut text = String::new();
        push_stem(&mut text, *self);
        assert(text@ =~= stem_text(*self));
        text
    }
}

impl DesignSpec {
    /// The bouquet as text: the design's letter, the letter of the size
    /// class, then every stem in order.
    pub fn to_string(&self) -> (text: String)
        ensures
            text@ == bouquet_text(*self),
    {
        let mut text = String::new();
        text.push(self.design);
        text.push(self.size.letter());
        let ghost head = text@;
        assert(head =~= seq![self.design, size_letter(self.size)]);
        let mut i: usize = 0;
        while i < self.stems.len()
            invariant
                i <= self.stems.len(),
                text@ == head + stems_text(self.stems@.take(i as int)),
            decreases self.stems.len() - i,
        {
            assert(self.stems@.take(i + 1).drop_last() =~= self.stems@.take(i as int));
            push_stem(&mut text, self.stems[i]);
            assert(text@ =~= head + stems_text(self.stems@.take(i + 1)));
            i += 1;
        }
        assert(self.stems@.take(i as int) =~= self.stems@);
        text
    }
}

} // verus!
