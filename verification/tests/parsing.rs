use bouquets::parse::ParseError;
use bouquets::parse::{read_design, read_size, read_stem};
use bouquets::text::{characters, read_number, symbol, symbols, Symbol};
use bouquets::types::{DesignSpec, DesignStem, Flower, StemSize};

fn stem(amount: u8, name: char) -> DesignStem {
    DesignStem { amount, name }
}

#[test]
fn design_record_is_read_in_full() {
    let design = DesignSpec::from_str("AL3a2b5").unwrap();
    assert_eq!(design.design, 'A');
    assert_eq!(design.size, StemSize::L);
    assert_eq!(design.stems, vec![stem(3, 'a'), stem(2, 'b')]);
    assert_eq!(design.total, 5);
}

#[test]
fn design_record_with_long_numbers() {
    let design = DesignSpec::from_str("zS10r255t8d65535").unwrap();
    assert_eq!(design.design, 'z');
    assert_eq!(design.size, StemSize::S);
    assert_eq!(design.stems, vec![stem(10, 'r'), stem(255, 't'), stem(8, 'd')]);
    assert_eq!(design.total, 65535);
}

#[test]
fn design_record_without_stems() {
    let design = DesignSpec::from_str("AS0").unwrap();
    assert!(design.stems.is_empty());
    assert_eq!(design.total, 0);
}

#[test]
fn numbers_may_have_plus_sign_and_leading_zeros() {
    let design = DesignSpec::from_str("AL+3a0002b+0005").unwrap();
    assert_eq!(design.stems, vec![stem(3, 'a'), stem(2, 'b')]);
    assert_eq!(design.total, 5);
}

#[test]
fn amount_of_zero_is_read() {
    let design = DesignSpec::from_str("AL0a1").unwrap();
    assert_eq!(design.stems, vec![stem(0, 'a')]);
}

#[test]
fn kind_may_be_any_lowercase_letter() {
    let design = DesignSpec::from_str("AL1\u{e9}2\u{3b1}3").unwrap();
    assert_eq!(design.stems, vec![stem(1, '\u{e9}'), stem(2, '\u{3b1}')]);
    assert_eq!(design.total, 3);
}

#[test]
fn empty_design_record_has_no_design() {
    assert_eq!(DesignSpec::from_str("").unwrap_err(), ParseError::DesignNotFound);
}

#[test]
fn design_record_of_one_letter_has_no_size() {
    assert_eq!(DesignSpec::from_str("A").unwrap_err(), ParseError::SizeNotFound);
}

#[test]
fn design_record_with_unknown_size() {
    assert_eq!(DesignSpec::from_str("AM1a1").unwrap_err(), ParseError::UnknownSize);
    assert_eq!(DesignSpec::from_str("Al1a1").unwrap_err(), ParseError::UnknownSize);
}

#[test]
fn design_record_with_uppercase_kind() {
    assert_eq!(DesignSpec::from_str("AL3A5").unwrap_err(), ParseError::NameNotLowercase);
    assert_eq!(DesignSpec::from_str("AL3a2\u{1c5}5").unwrap_err(), ParseError::NameNotLowercase);
}

#[test]
fn design_record_with_bad_amount() {
    assert_eq!(DesignSpec::from_str("ALa5").unwrap_err(), ParseError::InvalidAmount);
    assert_eq!(DesignSpec::from_str("AL256a5").unwrap_err(), ParseError::InvalidAmount);
    assert_eq!(DesignSpec::from_str("AL-1a5").unwrap_err(), ParseError::InvalidAmount);
    assert_eq!(DesignSpec::from_str("AL1 a5").unwrap_err(), ParseError::InvalidAmount);
    assert_eq!(DesignSpec::from_str("AL+a5").unwrap_err(), ParseError::InvalidAmount);
    assert_eq!(DesignSpec::from_str("AL3a2bc5").unwrap_err(), ParseError::InvalidAmount);
}

#[test]
fn design_record_with_bad_total() {
    assert_eq!(DesignSpec::from_str("AL3a").unwrap_err(), ParseError::InvalidTotal);
    assert_eq!(DesignSpec::from_str("AL").unwrap_err(), ParseError::InvalidTotal);
    assert_eq!(DesignSpec::from_str("AL3a65536").unwrap_err(), ParseError::InvalidTotal);
    assert_eq!(DesignSpec::from_str("AL3a5 ").unwrap_err(), ParseError::InvalidTotal);
    assert_eq!(DesignSpec::from_str("AL3a5.0").unwrap_err(), ParseError::InvalidTotal);
    let huge = DesignSpec::from_str("AL3a99999999999999999999");
    assert_eq!(huge.unwrap_err(), ParseError::InvalidTotal);
}

#[test]
fn design_record_with_repeated_kind() {
    assert_eq!(DesignSpec::from_str("AL3a2a5").unwrap_err(), ParseError::RepeatedName);
    assert_eq!(DesignSpec::from_str("AL3a2b1a5").unwrap_err(), ParseError::RepeatedName);
}

#[test]
fn first_fault_from_the_left_decides() {
    assert_eq!(DesignSpec::from_str("AL3A2a2a").unwrap_err(), ParseError::NameNotLowercase);
    assert_eq!(DesignSpec::from_str("AL3a2a999b").unwrap_err(), ParseError::RepeatedName);
    assert_eq!(DesignSpec::from_str("AL3a999b2a").unwrap_err(), ParseError::InvalidAmount);
    assert_eq!(DesignSpec::from_str("AX").unwrap_err(), ParseError::UnknownSize);
}

#[test]
fn stem_is_amount_then_kind() {
    assert_eq!(DesignStem::from_str("12r"), Ok(stem(12, 'r')));
    assert_eq!(DesignStem::from_str("255a"), Ok(stem(255, 'a')));
    assert_eq!(DesignStem::from_str("0a"), Ok(stem(0, 'a')));
    assert_eq!(DesignStem::from_str("+7\u{e9}"), Ok(stem(7, '\u{e9}')));
}

#[test]
fn stem_without_anything_has_no_name() {
    assert_eq!(DesignStem::from_str(""), Err(ParseError::NameNotFound));
}

#[test]
fn stem_must_end_in_lowercase_letter() {
    assert_eq!(DesignStem::from_str("12"), Err(ParseError::NameNotLowercase));
    assert_eq!(DesignStem::from_str("1R"), Err(ParseError::NameNotLowercase));
    assert_eq!(DesignStem::from_str("1 "), Err(ParseError::NameNotLowercase));
}

#[test]
fn stem_must_begin_with_amount_up_to_255() {
    assert_eq!(DesignStem::from_str("r"), Err(ParseError::InvalidAmount));
    assert_eq!(DesignStem::from_str("256r"), Err(ParseError::InvalidAmount));
    assert_eq!(DesignStem::from_str("1ab"), Err(ParseError::InvalidAmount));
    assert_eq!(DesignStem::from_str("1.5r"), Err(ParseError::InvalidAmount));
}

#[test]
fn flower_is_kind_then_size() {
    assert_eq!(Flower::from_str("rL"), Ok(Flower { name: 'r', size: StemSize::L }));
    assert_eq!(Flower::from_str("aS"), Ok(Flower { name: 'a', size: StemSize::S }));
    assert_eq!(Flower::from_str("aSxyz"), Ok(Flower { name: 'a', size: StemSize::S }));
}

#[test]
fn flower_record_faults() {
    assert_eq!(Flower::from_str(""), Err(ParseError::NameNotFound));
    assert_eq!(Flower::from_str("r"), Err(ParseError::SizeNotFound));
    assert_eq!(Flower::from_str("rM"), Err(ParseError::UnknownSize));
    assert_eq!(Flower::from_str("rs"), Err(ParseError::UnknownSize));
}

#[test]
fn size_is_one_of_two_letters() {
    assert_eq!(StemSize::from_str("S"), Ok(StemSize::S));
    assert_eq!(StemSize::from_str("L"), Ok(StemSize::L));
    assert_eq!(StemSize::from_str(""), Err(()));
    assert_eq!(StemSize::from_str("M"), Err(()));
    assert_eq!(StemSize::from_str("SL"), Err(()));
    assert_eq!(StemSize::from_str("s"), Err(()));
}

#[test]
fn characters_are_those_of_the_string() {
    assert_eq!(characters("a\u{e9}5"), vec!['a', '\u{e9}', '5']);
    assert!(characters("").is_empty());
}

#[test]
fn number_is_read_from_a_range() {
    let text = symbols("ab+042cd");
    assert_eq!(read_number(&text, 2, 6, 255), Some(42));
    assert_eq!(read_number(&text, 3, 6, 255), Some(42));
    assert_eq!(read_number(&text, 3, 6, 41), None);
    assert_eq!(read_number(&text, 3, 6, 42), Some(42));
    assert_eq!(read_number(&text, 2, 3, 255), None);
    assert_eq!(read_number(&text, 3, 3, 255), None);
    assert_eq!(read_number(&text, 1, 6, 255), None);
    assert_eq!(read_number(&text, 3, 7, 255), None);
    let big = symbols("65535 65536");
    assert_eq!(read_number(&big, 0, 5, 65535), Some(65535));
    assert_eq!(read_number(&big, 6, 11, 65535), None);
    assert_eq!(read_number(&symbols("0"), 0, 1, 0), Some(0));
    assert_eq!(read_number(&symbols("1"), 0, 1, 0), None);
    assert_eq!(read_number(&symbols("++1"), 0, 3, 9), None);
}

#[test]
fn symbols_say_what_characters_are() {
    assert_eq!(symbol('a'), Symbol { value: 'a', alphabetic: true, lowercase: true });
    assert_eq!(symbol('A'), Symbol { value: 'A', alphabetic: true, lowercase: false });
    assert_eq!(symbol('7'), Symbol { value: '7', alphabetic: false, lowercase: false });
    assert_eq!(symbol('\u{3b1}'), Symbol { value: '\u{3b1}', alphabetic: true, lowercase: true });
    let han = Symbol { value: '\u{4e2d}', alphabetic: true, lowercase: false };
    assert_eq!(symbol('\u{4e2d}'), han);
    assert_eq!(symbols("a1"), vec![symbol('a'), symbol('1')]);
    assert!(symbols("").is_empty());
}

fn plain(value: char) -> Symbol {
    Symbol { value, alphabetic: false, lowercase: false }
}

fn kind(value: char) -> Symbol {
    Symbol { value, alphabetic: true, lowercase: true }
}

fn capital(value: char) -> Symbol {
    Symbol { value, alphabetic: true, lowercase: false }
}

#[test]
fn design_is_cut_at_the_symbols_marked_alphabetic() {
    // Here `#` and `%` are marked as kinds, and the letters `x` and `y` are not.
    let record = vec![
        plain('D'),
        plain('S'),
        plain('1'),
        plain('2'),
        kind('#'),
        plain('3'),
        kind('%'),
        plain('1'),
        plain('5'),
    ];
    let design = read_design(&record).unwrap();
    assert_eq!(design.design, 'D');
    assert_eq!(design.size, StemSize::S);
    assert_eq!(design.stems, vec![stem(12, '#'), stem(3, '%')]);
    assert_eq!(design.total, 15);

    let unmarked = vec![plain('D'), plain('L'), plain('1'), plain('x'), plain('2')];
    assert_eq!(read_design(&unmarked).unwrap_err(), ParseError::InvalidTotal);

    let not_lower = vec![plain('D'), plain('L'), plain('1'), capital('x'), plain('2')];
    assert_eq!(read_design(&not_lower).unwrap_err(), ParseError::NameNotLowercase);

    let twice =
        vec![plain('D'), plain('L'), plain('1'), kind('x'), plain('1'), kind('x'), plain('2')];
    assert_eq!(read_design(&twice).unwrap_err(), ParseError::RepeatedName);
}

#[test]
fn stem_is_read_from_a_range_of_symbols() {
    let text = vec![plain('?'), plain('4'), plain('2'), kind('r'), plain('9')];
    assert_eq!(read_stem(&text, 1, 4), Ok(stem(42, 'r')));
    assert_eq!(read_stem(&text, 3, 4), Err(ParseError::InvalidAmount));
    assert_eq!(read_stem(&text, 0, 4), Err(ParseError::InvalidAmount));
    assert_eq!(read_stem(&text, 1, 3), Err(ParseError::NameNotLowercase));
    assert_eq!(read_stem(&text, 2, 2), Err(ParseError::NameNotFound));
    // Only the last symbol has to be marked lowercase; it need not be marked alphabetic.
    let odd = vec![plain('7'), Symbol { value: '!', alphabetic: false, lowercase: true }];
    assert_eq!(read_stem(&odd, 0, 2), Ok(stem(7, '!')));
}

#[test]
fn size_letters() {
    assert_eq!(read_size('S'), Some(StemSize::S));
    assert_eq!(read_size('L'), Some(StemSize::L));
    assert_eq!(read_size('s'), None);
    assert_eq!(read_size('1'), None);
}
