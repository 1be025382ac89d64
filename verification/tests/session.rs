use bouquets::catalog::catalogs;
use bouquets::types::{DesignSpec, Flower};
use bouquets::workshop::Workshop;

fn run(designs: &[&str], flowers: &[&str]) -> Vec<String> {
    let declared: Vec<DesignSpec> =
        designs.iter().map(|record| DesignSpec::from_str(record).unwrap()).collect();
    let (large, small) = catalogs(declared);
    let mut workshop = Workshop::new(&large, &small);
    let mut printed = Vec::new();
    for record in flowers {
        let flower = Flower::from_str(record).unwrap();
        if let Some(bouquet) = workshop.add_flower(flower) {
            printed.push(bouquet.to_string());
        }
    }
    printed
}

#[test]
fn bouquets_come_out_as_soon_as_they_are_complete() {
    let designs = ["AL2a2b4", "BS1a1c2", "CL1a1b1", "DS2c2"];
    let flowers = ["aL", "aS", "cS", "cS", "bL", "aL", "cS", "bL", "aL", "bL"];
    // `CL1a1b1` lists more kinds than it has stems and is dropped.
    assert_eq!(run(&designs, &flowers), vec!["BS1a1c", "DS2c", "AL2a2b"]);
}

#[test]
fn nothing_comes_out_without_designs() {
    let flowers = ["aL", "aS", "bL"];
    assert!(run(&[], &flowers).is_empty());
    assert!(run(&["AL1a1b1"], &flowers).is_empty());
}

#[test]
fn every_flower_may_complete_a_bouquet() {
    let designs = ["xS1a1", "yL1a1"];
    let flowers = ["aS", "aL", "aL", "aS"];
    assert_eq!(run(&designs, &flowers), vec!["xS1a", "yL1a", "yL1a", "xS1a"]);
}
