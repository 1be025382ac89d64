//! Characters and decimal numbers: the letters that a record is cut at, and
//! the amounts and totals written in it.

use vstd::prelude::*;

verus! {

/// Whether a character is alphabetic in the sense of Unicode.
pub uninterp spec fn alphabetic(c: char) -> bool;

/// Whether a character is a lowercase letter in the sense of Unicode.
pub uninterp spec fn lowercase(c: char) -> bool;

/// `char::is_alphabetic` of the standard library. Taken on trust: its answer
/// depends on the character alone, and is what this library calls alphabetic.
pub assume_specification[ char::is_alphabetic ](c: char) -> (yes: bool)
    ensures
        yes == alphabetic(c),
;

/// `char::is_lowercase` of the standard library. Taken on trust: its answer
/// depends on the character alone, and is what this library calls lowercase.
pub assume_specification[ char::is_lowercase ](c: char) -> (yes: bool)
    ensures
        yes == lowercase(c),
;

/// `String::push` of the standard library. Taken on trust: the string
/// afterwards is the string before with the character added at its end.
pub assume_specification[ String::push ](text: &mut String, ch: char)
    ensures
        final(text)@ == old(text)@.push(ch),
;

/// A character of a record, with what the standard library says of it. The
/// rules for records are stated over symbols, and so hold whatever the
/// standard library takes a character to be.
#[derive(Debug, Clone, Copy, PartialEq, Eq, Structural)]
pub struct Symbol {
    pub value: char,
    pub alphabetic: bool,
    pub lowercase: bool,
}

/// The symbol for a character.
pub open spec fn symbol_of(c: char) -> Symbol {
    Symbol { value: c, alphabetic: alphabetic(c), lowercase: lowercase(c) }
}

/// The symbols for the characters of a text.
pub open spec fn symbols_of(text: Seq<char>) -> Seq<Symbol> {
    Seq::new(text.len(), |i: int| symbol_of(text[i]))
}

/// The characters of a run of symbols.
pub open spec fn values(symbols: Seq<Symbol>) -> Seq<char> {
    Seq::new(symbols.len(), |i: int| symbols[i].value)
}

/// Whether a character is one of the ten decimal digits.
pub open spec fn is_digit(c: char) -> bool {
    '0' <= c && c <= '9'
}

/// The value of a decimal digit; zero for any other character.
pub open spec fn digit_value(c: char) -> nat {
    if is_digit(c) {
        (c as int - '0' as int) as nat
    } else {
        0
    }
}

/// The number that a run of digits denotes.
pub open spec fn decimal_value(digits: Seq<char>) -> nat
    decreases digits.len(),
{
    if digits.len() == 0 {
        0
    } else {
        decimal_value(digits.drop_last()) * 10 + digit_value(digits.last())
    }
}

/// The digits of a number as written: what follows its plus sign, if it has one.
pub open spec fn digits_of(text: Seq<char>) -> Seq<char> {
    if text.len() > 0 && text[0] == '+' {
        text.skip(1)
    } else {
        text
    }
}

/// The number written in `text`, where `text` is an optional plus sign and
/// then one decimal digit or more, and the number is at most `max`.
pub open spec fn number_of(text: Seq<char>, max: nat) -> Option<nat> {
    let digits = digits_of(text);
    if digits.len() > 0 && (forall|i: int| 0 <= i < digits.len() ==> is_digit(#[trigger] digits[i]))
        && decimal_value(digits) <= max {
        Some(decimal_value(digits))
    } else {
        None
    }
}

/// The character for a digit.
pub open spec fn digit_char(d: nat) -> char {
    (d + 48) as char
}

/// A number in decimal, without leading zeros.
pub open spec fn decimal(n: nat) -> Seq<char>
    decreases n,
{
    if n < 10 {
        seq![digit_char(n)]
    } else {
        decimal(n / 10).push(digit_char(n % 10))
    }
}

/// A run of digits denotes at least what any beginning of it denotes.
pub proof fn lemma_decimal_value_grows(digits: Seq<char>, k: int)
    requires
        0 <= k <= digits.len(),
    ensures
        decimal_value(digits.take(k)) <= decimal_value(digits),
    decreases digits.len(),
{
    if k == digits.len() {
        assert(digits.take(k) =~= digits);
    } else {
        lemma_decimal_value_grows(digits.drop_last(), k);
        assert(digits.drop_last().take(k) =~= digits.take(k));
    }
}

/// What is written can be read back: a number in decimal is made of digits
/// only, and they denote that number.
pub proof fn lemma_decimal_reads_back(n: nat)
    ensures
        decimal(n).len() > 0,
        forall|i: int| 0 <= i < decimal(n).len() ==> is_digit(#[trigger] decimal(n)[i]),
        decimal_value(decimal(n)) == n,
        number_of(decimal(n), n) == Some(n),
    decreases n,
{
    if n < 10 {
        assert(decimal(n).drop_last() =~= Seq::<char>::empty());
        assert(decimal_value(decimal(n).drop_last()) == 0);
    } else {
        lemma_decimal_reads_back(n / 10);
        assert(decimal(n).drop_last() =~= decimal(n / 10));
    }
    assert(digits_of(decimal(n)) == decimal(n)) by {
        assert(is_digit(decimal(n)[0]));
    }
}

/// The characters of a string, one by one.
pub fn characters(text: &str) -> (chars: Vec<char>)
    ensures
        chars@ == text@,
{
    let mut chars: Vec<char> = Vec::new();
    for c in it: text.chars()
        invariant
            it.seq() == text@,
            chars@ == text@.take(it.index() as int),
    {
        chars.push(c);
    }
    chars
}

/// Asks the standard library what a character is.
pub fn symbol(c: char) -> (symbol: Symbol)
    ensures
        symbol == symbol_of(c),
{
    Symbol { value: c, alphabetic: c.is_alphabetic(), lowercase: c.is_lowercase() }
}

/// The symbols of a string, one for each character.
pub fn symbols(text: &str) -> (symbols: Vec<Symbol>)
    ensures
        symbols@ == symbols_of(text@),
{
    let mut symbols: Vec<Symbol> = Vec::new();
    for c in it: text.chars()
        invariant
            it.seq() == text@,
            symbols@.len() == it.index(),
            forall|j: int| 0 <= j < it.index() ==> symbols@[j] == symbol_of(#[trigger] text@[j]),
    {
        symbols.push(symbol(c));
    }
    assert(symbols@ =~= symbols_of(text@));
    symbols
}

/// Reads the number written in `symbols[from..to]`.
pub fn read_number(symbols: &Vec<Symbol>, from: usize, to: usize, max: u16) -> (number: Option<
    u16,
>)
    requires
        from <= to <= symbols@.len(),
    ensures
        match number {
            Some(n) => number_of(values(symbols@.subrange(from as int, to as int)), max as nat)
                == Some(n as nat),
            None => number_of(values(symbols@.subrange(from as int, to as int)), max as nat)
                is None,
        },
{
    let ghost text = values(symbols@.subrange(from as int, to as int));
    let start: usize = if from < to && symbols[from].value == '+' {
        from + 1
    } else {
        from
    };
    let ghost digits = values(symbols@.subrange(start as int, to as int));
    assert(digits =~= digits_of(text));
    if start == to {
        return None;
    }
    let mut value: u32 = 0;
    let mut i: usize = start;
    while i < to
        invariant
            from <= start <= i <= to <= symbols@.len(),
            digits == values(symbols@.subrange(start as int, to as int)),
            digits == digits_of(values(symbols@.subrange(from as int, to as int))),
            forall|j: int| 0 <= j < i - start ==> is_digit(#[trigger] digits[j]),
            value == decimal_value(digits.take(i - start)),
            value <= max,
        decreases to - i,
    {
        let c = symbols[i].value;
        if !(c >= '0' && c <= '9') {
            assert(!is_digit(digits[i - start]));
            return None;
        }
        let d: u32 = c as u32 - '0' as u32;
        let next: u32 = value * 10 + d;
        proof {
            assert(digits.take(i - start + 1).drop_last() =~= digits.take(i - start));
            assert(digits.take(i - start + 1).last() == c);
            assert(next == decimal_value(digits.take(i - start + 1)));
        }
        if next > max as u32 {
            proof {
                lemma_decimal_value_grows(digits, i - start + 1);
            }
            return None;
        }
        value = next;
        i += 1;
    }
    assert(digits.take(i - start) =~= digits);
    Some(value as u16)
}

/// Writes a number in decimal at the end of a string.
pub fn push_decimal(out: &mut String, n: u8)
    ensures
        final(out)@ == old(out)@ + decimal(n as nat),
{
    reveal_with_fuel(decimal, 3);
    if n >= 100 {
        out.push((48u8 + n / 100) as char);
    }
    if n >= 10 {
        out.push((48u8 + (n / 10) % 10) as char);
    }
    out.push((48u8 + n % 10) as char);
    assert(out@ =~= old(out)@ + decimal(n as nat));
}

} // verus!
