use std::collections::HashSet;

use slasher::names::{endings_of, tables_look_complete};

#[test]
fn endings_are_the_last_three_segments() {
    let mut endings = endings_of(&["Weapons/AR_Standard_Barrel_C".to_owned(), "mc/mtl_c".to_owned(), "no_".to_owned()]);
    endings.sort();
    assert_eq!(
        endings,
        vec!["_barrel_c".to_owned(), "_c".to_owned(), "_standard_barrel_c".to_owned()]
    );
}

#[test]
fn repeated_endings_come_once() {
    let endings = endings_of(&["a_x".to_owned(), "b_x".to_owned(), "c_y_x".to_owned()]);
    let set: HashSet<&String> = endings.iter().collect();
    assert_eq!(set.len(), endings.len());
    let mut sorted = endings.clone();
    sorted.sort();
    assert_eq!(sorted, vec!["_x".to_owned(), "_y_x".to_owned()]);
}

#[test]
fn a_short_read_of_the_tables_is_not_the_tables() {
    let few: HashSet<u64> = (0..10).collect();
    assert!(!tables_look_complete(&few));
    let many: HashSet<u64> = (0..1_000_000).collect();
    assert!(tables_look_complete(&many));
}
