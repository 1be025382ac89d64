//! Reading records: a design is its letter, its size class, its stems and its
//! total; a flower is its kind and its size class.

use crate::text::{
    characters, number_of, read_number, symbols, symbols_of, values, Symbol,
};
use crate::types::{
    distinct_kinds, has_kind, lists, DesignSpec, DesignStem, Flower, Recipe, StemSize,
};
use vstd::prelude::*;

verus! {

/// Why a record could not be read.
#[derive(Debug, Clone, Copy, PartialEq, Eq, Structural)]
pub enum ParseError {
    /// The record is empty where the design's letter should stand.
    DesignNotFound,
    /// The record ends where the size class should stand.
    SizeNotFound,
    /// The size class is neither `S` nor `L`.
    UnknownSize,
    /// There is nothing where the kind of a stem or flower should stand.
    NameNotFound,
    /// The kind of a stem is not a lowercase letter.
    NameNotLowercase,
    /// The amount of a stem is not a number from 0 to 255.
    InvalidAmount,
    /// The total of a design is not a number from 0 to 65535.
    InvalidTotal,
    /// A design lists the same kind twice.
    RepeatedName,
}

/// The size class that a letter stands for.
pub open spec fn size_of(letter: char) -> Option<StemSize> {
    if letter == 'S' {
        Some(StemSize::S)
    } else if letter == 'L' {
        Some(StemSize::L)
    } else {
        None
    }
}

/// The stem written in a run of symbols: an amount, then the kind as the
/// last character.
pub open spec fn stem_of(text: Seq<Symbol>) -> Result<DesignStem, ParseError> {
    if text.len() == 0 {
        Err(ParseError::NameNotFound)
    } else if !text.last().lowercase {
        Err(ParseError::NameNotLowercase)
    } else {
        match number_of(values(text.drop_last()), 255) {
            Some(amount) => Ok(DesignStem { amount: amount as u8, name: text.last().value }),
            None => Err(ParseError::InvalidAmount),
        }
    }
}

/// How many symbols stand before the first alphabetic one; the length of the
/// text where none is alphabetic.
pub open spec fn before_letter(text: Seq<Symbol>) -> nat
    decreases text.len(),
{
    if text.len() == 0 || text[0].alphabetic {
        0
    } else {
        1 + before_letter(text.skip(1))
    }
}

/// The stems and the total written in `text`, the stems added to those already
/// read. Every alphabetic character ends a stem; what follows the last stem
/// is the total. The first fault from the left decides the error.
pub open spec fn stems_and_total(text: Seq<Symbol>, stems: Seq<DesignStem>) -> Result<
    (Seq<DesignStem>, u16),
    ParseError,
>
    decreases text.len(),
{
    let end = before_letter(text) as int;
    if end >= text.len() {
        match number_of(values(text), 65535) {
            Some(total) => Ok((stems, total as u16)),
            None => Err(ParseError::InvalidTotal),
        }
    } else {
        match stem_of(text.take(end + 1)) {
            Err(e) => Err(e),
            Ok(stem) => if has_kind(stems, stem.name) {
                Err(ParseError::RepeatedName)
            } else {
                stems_and_total(text.skip(end + 1), stems.push(stem))
            },
        }
    }
}

/// The design written in a run of symbols: the design's letter, the letter of
/// its size class, its stems, and its total.
pub open spec fn design_of(text: Seq<Symbol>) -> Result<Recipe, ParseError> {
    if text.len() == 0 {
        Err(ParseError::DesignNotFound)
    } else if text.len() == 1 {
        Err(ParseError::SizeNotFound)
    } else {
        match size_of(text[1].value) {
            None => Err(ParseError::UnknownSize),
            Some(size) => match stems_and_total(text.skip(2), Seq::empty()) {
                Err(e) => Err(e),
                Ok((stems, total)) => Ok(Recipe { design: text[0].value, size, stems, total }),
            },
        }
    }
}

/// The flower written in `text`: its kind, then the letter of its size class.
/// What follows the two is not looked at.
pub open spec fn flower_of(text: Seq<char>) -> Result<Flower, ParseError> {
    if text.len() == 0 {
        Err(ParseError::NameNotFound)
    } else if text.len() == 1 {
        Err(ParseError::SizeNotFound)
    } else {
        match size_of(text[1]) {
            None => Err(ParseError::UnknownSize),
            Some(size) => Ok(Flower { name: text[0], size }),
        }
    }
}

/// Where the first `end` symbols are not alphabetic and the text ends there
/// or goes on with an alphabetic one, `end` symbols stand before the first
/// letter.
pub proof fn lemma_before_letter(text: Seq<Symbol>, end: int)
    requires
        0 <= end <= text.len(),
        forall|j: int| 0 <= j < end ==> !(#[trigger] text[j]).alphabetic,
        end < text.len() ==> text[end].alphabetic,
    ensures
        before_letter(text) == end,
    decreases end,
{
    if end > 0 {
        let rest = text.skip(1);
        assert forall|j: int| 0 <= j < end - 1 implies !(#[trigger] rest[j]).alphabetic by {
            assert(rest[j] == text[j + 1]);
        }
        lemma_before_letter(rest, end - 1);
    }
}

/// Reads the size class that a letter stands for.
pub fn read_size(letter: char) -> (size: Option<StemSize>)
    ensures
        size == size_of(letter),
{
    if letter == 'S' {
        Some(StemSize::S)
    } else if letter == 'L' {
        Some(StemSize::L)
    } else {
        None
    }
}

/// Reads the stem written in `symbols[from..to]`.
pub fn read_stem(symbols: &Vec<Symbol>, from: usize, to: usize) -> (stem: Result<
    DesignStem,
    ParseError,
>)
    requires
        from <= to <= symbols@.len(),
    ensures
        stem == stem_of(symbols@.subrange(from as int, to as int)),
{
    let ghost text = symbols@.subrange(from as int, to as int);
    if from == to {
        return Err(ParseError::NameNotFound);
    }
    let name = symbols[to - 1];
    if !name.lowercase {
        return Err(ParseError::NameNotLowercase);
    }
    assert(text.drop_last() =~= symbols@.subrange(from as int, to - 1));
    match read_number(symbols, from, to - 1, 255) {
        Some(amount) => Ok(DesignStem { amount: amount as u8, name: name.value }),
        None => Err(ParseError::InvalidAmount),
    }
}

/// Reads the design written in a run of symbols.
pub fn read_design(symbols: &Vec<Symbol>) -> (design: Result<DesignSpec, ParseError>)
    ensures
        match design {
            Ok(design) => design_of(symbols@) == Ok::<Recipe, ParseError>(design@),
            Err(e) => design_of(symbols@) == Err::<Recipe, ParseError>(e),
        },
        design matches Ok(design) ==> distinct_kinds(design.stems@),
{
    if symbols.len() == 0 {
        return Err(ParseError::DesignNotFound);
    }
    if symbols.len() == 1 {
        return Err(ParseError::SizeNotFound);
    }
    let size = match read_size(symbols[1].value) {
        Some(size) => size,
        None => {
            return Err(ParseError::UnknownSize);
        },
    };
    let ghost whole = stems_and_total(symbols@.skip(2), Seq::empty());
    let mut stems: Vec<DesignStem> = Vec::new();
    let mut start: usize = 2;
    let mut i: usize = 2;
    while i < symbols.len()
        invariant
            2 <= start <= i <= symbols@.len(),
            size_of(symbols@[1].value) == Some(size),
            whole == stems_and_total(symbols@.skip(2), Seq::empty()),
            forall|j: int| start <= j < i ==> !(#[trigger] symbols@[j]).alphabetic,
            stems_and_total(symbols@.skip(start as int), stems@) == whole,
            distinct_kinds(stems@),
        decreases symbols.len() - i,
    {
        if symbols[i].alphabetic {
            let ghost text = symbols@.skip(start as int);
            proof {
                lemma_before_letter(text, i - start);
                assert(text.take(i - start + 1) =~= symbols@.subrange(start as int, i + 1));
                assert(text.skip(i - start + 1) =~= symbols@.skip(i + 1));
            }
            match read_stem(symbols, start, i + 1) {
                Err(e) => {
                    return Err(e);
                },
                Ok(stem) => {
                    if lists(&stems, stem.name) {
                        return Err(ParseError::RepeatedName);
                    }
                    stems.push(stem);
                    start = i + 1;
                },
            }
        }
        i += 1;
    }
    let ghost text = symbols@.skip(start as int);
    proof {
        lemma_before_letter(text, text.len() as int);
        assert(text =~= symbols@.subrange(start as int, symbols@.len() as int));
    }
    match read_number(symbols, start, symbols.len(), 65535) {
        Some(total) => Ok(DesignSpec { design: symbols[0].value, size, stems, total }),
        None => Err(ParseError::InvalidTotal),
    }
}

impl StemSize {
    /// Reads a size class: `S` or `L`, and nothing else.
    pub fn from_str(input: &str) -> (size: Result<StemSize, ()>)
        ensures
            match size {
                Ok(size) => input@.len() == 1 && size_of(input@[0]) == Some(size),
                Err(_) => input@.len() != 1 || size_of(input@[0]) is None,
            },
    {
        let chars = characters(input);
        if chars.len() != 1 {
            return Err(());
        }
        match read_size(chars[0]) {
            Some(size) => Ok(size),
            None => Err(()),
        }
    }
}

impl DesignStem {
    /// Reads a stem: its amount, then its kind, a lowercase letter.
    pub fn from_str(input: &str) -> (stem: Result<DesignStem, ParseError>)
        ensures
            stem == stem_of(symbols_of(input@)),
    {
        let symbols = symbols(input);
        assert(symbols@.subrange(0, symbols@.len() as int) =~= symbols@);
        read_stem(&symbols, 0, symbols.len())
    }
}

impl Flower {
    /// Reads a flower: its kind, then its size class.
    pub fn from_str(s: &str) -> (flower: Result<Flower, ParseError>)
        ensures
            flower == flower_of(s@),
    {
        let chars = characters(s);
        if chars.len() == 0 {
            return Err(ParseError::NameNotFound);
        }
        if chars.len() == 1 {
            return Err(ParseError::SizeNotFound);
        }
        match read_size(chars[1]) {
            Some(size) => Ok(Flower { name: chars[0], size }),
            None => Err(ParseError::UnknownSize),
        }
    }
}

impl DesignSpec {
    /// Reads a design: its letter, its size class, its stems, and its total.
    /// Every alphabetic character after the size class ends a stem, and has
    /// to be a lowercase letter.
    pub fn from_str(s: &str) -> (design: Result<DesignSpec, ParseError>)
        ensures
            match design {
                Ok(design) => design_of(symbols_of(s@)) == Ok::<Recipe, ParseError>(design@),
                Err(e) => design_of(symbols_of(s@)) == Err::<Recipe, ParseError>(e),
            },
            design matches Ok(design) ==> distinct_kinds(design.stems@),
    {
        let symbols = symbols(s);
        read_design(&symbols)
    }
}

} // verus!
