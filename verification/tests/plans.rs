use std::collections::HashMap;

use slasher::search::{ending_batch_for, fits_in_pieces, run_best, run_best_checked};

#[test]
fn a_peeled_batch_holds_sixty_million_entries() {
    assert_eq!(ending_batch_for(0), 30_000_000);
    assert_eq!(ending_batch_for(1), 30_000_000);
    assert_eq!(ending_batch_for(7), 60_000_000 / 14);
    assert_eq!(ending_batch_for(40_000_000), 1);
}

#[test]
fn short_texts_fit_in_any_piece() {
    let list = vec!["ab".to_owned(), "c".to_owned(), String::new()];
    assert!(fits_in_pieces(&list, 0));
    assert!(fits_in_pieces(&list, 1));
    assert!(fits_in_pieces(&list, 2));
    assert!(fits_in_pieces(&list, 100));
    assert!(fits_in_pieces(&[], 5));
}

#[test]
fn a_checked_run_is_the_run() {
    let openings = vec!["mc/".to_owned()];
    let endings = vec!["_c".to_owned()];
    let stems: Vec<String> = (0..20).map(|n| format!("stem_{n}")).collect();
    let mut wanted: HashMap<u64, usize> = HashMap::new();
    wanted.insert(slasher::id_of("mc/stem_4_c"), 0);
    wanted.insert(slasher::id_of("stem_5"), 0);

    for bare in [true, false] {
        let mut checked = run_best_checked(&openings, &endings, &stems, &wanted, bare)
            .expect("a small search fits");
        let mut plain = run_best(&openings, &endings, &stems, &wanted, bare);
        checked.sort();
        plain.sort();
        assert_eq!(checked, plain);
    }

    let mut found = run_best_checked(&openings, &endings, &stems, &wanted, true).unwrap();
    found.sort();
    found.dedup();
    let mut names: Vec<&str> = found.iter().map(|(_, name)| name.as_str()).collect();
    names.sort_unstable();
    assert_eq!(names, vec!["mc/stem_4_c", "stem_5"]);
}
