use bouquets::assembler::Assember;
use bouquets::catalog::{is_impossible_design, retain_satisfiable};
use bouquets::types::{DesignSpec, DesignStem, Flower, StemSize};
use bouquets::workshop::Workshop;

fn stem(amount: u8, name: char) -> DesignStem {
    DesignStem { amount, name }
}

fn design(letter: char, size: StemSize, stems: Vec<DesignStem>, total: u16) -> DesignSpec {
    DesignSpec { design: letter, size, stems, total }
}

fn large(name: char) -> Flower {
    Flower { name, size: StemSize::L }
}

fn small(name: char) -> Flower {
    Flower { name, size: StemSize::S }
}

#[test]
fn fifth_flower_completes_three_and_two() {
    let designs = vec![design('A', StemSize::L, vec![stem(3, 'a'), stem(2, 'b')], 5)];
    let mut assembler = Assember::new(&designs);
    assert!(assembler.add_flower(large('a')).is_none());
    assert!(assembler.add_flower(large('a')).is_none());
    assert!(assembler.add_flower(large('a')).is_none());
    assert!(assembler.add_flower(large('b')).is_none());
    let bouquet = assembler.add_flower(large('b')).unwrap();
    assert_eq!(bouquet.design, 'A');
    assert_eq!(bouquet.size, StemSize::L);
    assert_eq!(bouquet.total, 5);
    assert_eq!(bouquet.stems, vec![stem(3, 'a'), stem(2, 'b')]);
    assert_eq!(assembler.stock_of('a'), 0);
    assert_eq!(assembler.stock_of('b'), 0);
}

#[test]
fn fourth_flower_completes_total_of_four_and_later_stems_stay() {
    let designs = vec![design('B', StemSize::L, vec![stem(3, 'a'), stem(3, 'b')], 4)];
    let mut assembler = Assember::new(&designs);
    assert!(assembler.add_flower(large('a')).is_none());
    assert!(assembler.add_flower(large('a')).is_none());
    assert!(assembler.add_flower(large('a')).is_none());
    let bouquet = assembler.add_flower(large('b')).unwrap();
    assert_eq!(bouquet.stems, vec![stem(3, 'a'), stem(1, 'b')]);
    assert_eq!(bouquet.total, 4);
    assert_eq!(assembler.stock_of('a'), 0);
    assert_eq!(assembler.stock_of('b'), 0);
    assert!(assembler.add_flower(large('b')).is_none());
    assert!(assembler.add_flower(large('b')).is_none());
    assert_eq!(assembler.stock_of('a'), 0);
    assert_eq!(assembler.stock_of('b'), 2);
}

#[test]
fn design_with_more_kinds_than_stems_is_dropped() {
    let hopeless = design('C', StemSize::L, vec![stem(1, 'a'), stem(1, 'b')], 1);
    assert!(!is_impossible_design(&hopeless));
    assert!(!hopeless.is_usable());
    let kept = retain_satisfiable(vec![hopeless]);
    assert!(kept.is_empty());
    let none: Vec<DesignSpec> = Vec::new();
    let mut workshop = Workshop::new(&kept, &none);
    for _ in 0..10 {
        assert!(workshop.add_flower(large('a')).is_none());
        assert!(workshop.add_flower(large('b')).is_none());
    }
    assert_eq!(workshop.large.stock_of('a'), 10);
    assert_eq!(workshop.large.stock_of('b'), 10);
}

#[test]
fn small_flower_never_completes_large_design() {
    let large_designs = vec![design('A', StemSize::L, vec![stem(1, 'a')], 1)];
    let small_designs: Vec<DesignSpec> = Vec::new();
    let mut workshop = Workshop::new(&large_designs, &small_designs);
    assert!(workshop.add_flower(small('a')).is_none());
    assert!(workshop.add_flower(small('a')).is_none());
    assert_eq!(workshop.small.stock_of('a'), 2);
    assert_eq!(workshop.large.stock_of('a'), 0);
    let bouquet = workshop.add_flower(large('a')).unwrap();
    assert_eq!(bouquet.size, StemSize::L);
    assert_eq!(bouquet.stems, vec![stem(1, 'a')]);
    assert_eq!(workshop.small.stock_of('a'), 2);
    assert_eq!(workshop.large.stock_of('a'), 0);
}

#[test]
fn large_flower_never_completes_small_design() {
    let large_designs: Vec<DesignSpec> = Vec::new();
    let small_designs = vec![design('A', StemSize::S, vec![stem(1, 'a')], 1)];
    let mut workshop = Workshop::new(&large_designs, &small_designs);
    assert!(workshop.add_flower(large('a')).is_none());
    assert_eq!(workshop.large.stock_of('a'), 1);
    assert_eq!(workshop.small.stock_of('a'), 0);
    let bouquet = workshop.add_flower(small('a')).unwrap();
    assert_eq!(bouquet.size, StemSize::S);
    assert_eq!(bouquet.design, 'A');
    assert_eq!(workshop.large.stock_of('a'), 1);
    assert_eq!(workshop.small.stock_of('a'), 0);
}
