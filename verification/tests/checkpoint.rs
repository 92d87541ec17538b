use std::cell::RefCell;
use std::collections::HashMap;

use slasher::adapters::cpu::Cpu;
use slasher::search::{Handing, Meet};

#[test]
fn what_is_checkpointed_is_what_is_returned() {
    let openings = ["mc/".to_owned()];
    let endings = ["_c".to_owned(), "_n".to_owned()];
    let stems: Vec<String> = (0..50).map(|n| format!("piece_{n}")).collect();

    let mut wanted: HashMap<u64, usize> = HashMap::new();
    for name in ["mc/piece_3_c", "piece_7_n", "mc/piece_9"] {
        wanted.insert(slasher::id_of(name), 0);
    }

    let search = Meet::new(&openings, &endings);
    let kept: RefCell<Vec<Vec<(u64, String)>>> = RefCell::new(Vec::new());
    let mut checkpoint = Handing::new(|found: &[(u64, String)]| kept.borrow_mut().push(found.to_vec()));
    let found = search.run_checkpointed(&Cpu::with_threads(2), &stems, &wanted, &mut checkpoint);
    drop(checkpoint);

    let kept = kept.into_inner();
    assert!(kept.iter().all(|batch| !batch.is_empty()), "an empty batch is not handed over");
    let handed: Vec<(u64, String)> = kept.concat();
    assert_eq!(handed, found);

    let mut names: Vec<&str> = found.iter().map(|(_, name)| name.as_str()).collect();
    names.sort_unstable();
    names.dedup();
    assert_eq!(names, vec!["mc/piece_3_c", "mc/piece_9", "piece_7_n"]);
}

#[test]
fn a_search_that_finds_nothing_hands_nothing_over() {
    let openings = ["mc/".to_owned()];
    let endings = ["_c".to_owned()];
    let stems = vec!["piece".to_owned()];
    let mut wanted: HashMap<u64, usize> = HashMap::new();
    wanted.insert(slasher::id_of("nothing at all"), 0);

    let calls = RefCell::new(0);
    let mut checkpoint = Handing::new(|_: &[(u64, String)]| *calls.borrow_mut() += 1);
    let found = Meet::new(&openings, &endings).run_checkpointed(
        &Cpu::with_threads(1),
        &stems,
        &wanted,
        &mut checkpoint,
    );
    drop(checkpoint);
    assert!(found.is_empty());
    assert_eq!(calls.into_inner(), 0);
}

#[test]
fn a_search_with_no_endings_hands_everything_over_at_once() {
    let openings = ["arena/".to_owned(), "menu/".to_owned()];
    let endings: [String; 0] = [];
    let stems: Vec<String> = (0..100).map(|n| format!("key_{n}")).collect();
    let mut wanted: HashMap<u64, usize> = HashMap::new();
    for (i, stem) in stems.iter().enumerate() {
        wanted.insert(slasher::id_of(&format!("{}{}", openings[i % 2], stem)), 29);
    }

    let kept: RefCell<Vec<Vec<(u64, String)>>> = RefCell::new(Vec::new());
    let mut checkpoint = Handing::new(|found: &[(u64, String)]| kept.borrow_mut().push(found.to_vec()));
    let found = Meet::new(&openings, &endings).dressed_only().run_checkpointed(
        &Cpu::with_threads(2),
        &stems,
        &wanted,
        &mut checkpoint,
    );
    drop(checkpoint);

    assert_eq!(found.len(), 100);
    let kept = kept.into_inner();
    assert_eq!(kept.len(), 1);
    assert_eq!(kept[0], found);
}
