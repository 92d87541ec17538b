use std::collections::HashMap;

use slasher::search::{candidate_space, costs, run_best, Meet, Search};
use slasher::{feed, feed_raw, hash64, hash64_raw, id_of, peel, peel_raw, BASIS};

/// Peeling a string off a hash has to give back what was there before it, byte for byte,
/// including the normalisation.
#[test]
fn peeling_undoes_feeding() {
    let back = hash64_raw(r"amb\environment\water");
    assert_eq!(peel_raw(feed_raw(back, br"\wave_01"), br"\wave_01"), back);

    assert_ne!(hash64(r"a\b"), hash64_raw(r"a\b"));
    assert_eq!(hash64("a/b"), hash64_raw("a/b"), "no backslash, no difference");

    let before = hash64("mc/mtl_wpn_t9_ak47");
    assert_eq!(peel(feed(before, b"_barrel_c"), b"_barrel_c"), before);
    assert_eq!(peel(feed(before, b"_BARREL_C"), b"_barrel_c"), before);
    assert_eq!(peel(BASIS, b""), BASIS);
}

/// And that a whole name comes apart into the three pieces it was built from.
#[test]
fn a_name_comes_apart_into_beginning_stem_and_ending() {
    let whole = hash64("i_mtl_wpn_t9_ak47_barrel_c");

    assert_eq!(peel(whole, b"_c"), hash64("i_mtl_wpn_t9_ak47_barrel"));
    assert_eq!(peel(whole, b"wpn_t9_ak47_barrel_c"), hash64("i_mtl_"));
}

/// The candidate count is the count the search actually covers.
#[test]
fn the_candidate_space_is_the_whole_product() {
    assert_eq!(candidate_space(2, 4, 3, false), 30);
    assert_eq!(candidate_space(2, 4, 3, true), 45);
    assert_eq!(candidate_space(0, 0, 7, false), 0);
    assert_eq!(candidate_space(0, 4, 7, false), 0);
    assert_eq!(candidate_space(0, 0, 0, true), 0);
    assert_eq!(candidate_space(0, 4, 7, true), 35);
    assert_eq!(candidate_space(700, 4800, 30_660_024, true), 103_186_341_432_024);
}

/// The two searches ask the same question and must give the same answer.
#[test]
fn the_fast_search_finds_exactly_what_the_plain_one_does() {
    let openings: Vec<String> = ["mc/", "i_", "mc/mtl_", ""]
        .iter()
        .map(|text| (*text).to_owned())
        .collect();
    let endings: Vec<String> = (0..40).map(|number| format!("_{number:02}")).collect();
    let stems: Vec<String> = (0..500).map(|number| format!("thing_{number}")).collect();

    let mut wanted: HashMap<u64, usize> = HashMap::new();
    for (index, stem) in stems.iter().enumerate() {
        let opening = &openings[index % openings.len()];
        let ending = &endings[index % endings.len()];
        wanted.insert(id_of(&format!("{opening}{stem}{ending}")), 0);
        wanted.insert(id_of(&format!("{opening}{stem}")), 0);
        wanted.insert(id_of(stem), 0);
    }
    for number in 0..2_000 {
        wanted.insert(id_of(&format!("nothing reaches this {number}")), 0);
    }

    let mut plain = Search::new(&openings, &endings).run(&stems, &wanted);
    let mut fast = Meet::new(&openings, &endings).run(&stems, &wanted);

    plain.sort();
    fast.sort();
    plain.dedup();
    fast.dedup();

    assert!(!plain.is_empty());
    assert_eq!(plain, fast);
}

/// The same, for a search whose stems are fragments that always need dressing.
#[test]
fn the_two_searches_agree_when_the_bare_stem_is_not_a_candidate() {
    let openings: Vec<String> = ["arena/", "menu/", "weapon/"]
        .iter()
        .map(|text| (*text).to_owned())
        .collect();
    let endings: Vec<String> = (0..70).map(|number| format!("_name_{number}")).collect();
    let stems: Vec<String> = (0..300).map(|number| format!("key_{number}")).collect();

    let mut wanted: HashMap<u64, usize> = HashMap::new();
    for (index, stem) in stems.iter().enumerate() {
        let opening = &openings[index % openings.len()];
        wanted.insert(id_of(&format!("{opening}{stem}")), 29);
        wanted.insert(
            id_of(&format!("{opening}{stem}{}", endings[index % endings.len()])),
            29,
        );
    }

    let mut plain = Search::new(&openings, &endings).dressed_only().run(&stems, &wanted);
    let mut fast = Meet::new(&openings, &endings).dressed_only().run(&stems, &wanted);

    plain.sort();
    fast.sort();
    plain.dedup();
    fast.dedup();

    assert!(!plain.is_empty());
    assert_eq!(plain, fast);
}

/// A batch boundary is where a fast search would lose names if the bare stem, or the last few
/// endings, were handled only on the first time round.
#[test]
fn the_fast_search_agrees_across_many_batches() {
    let openings: Vec<String> = vec!["mc/".to_owned(), "wc/".to_owned()];
    let endings: Vec<String> = (0..500).map(|number| format!("_{number}")).collect();
    let stems: Vec<String> = (0..200).map(|number| format!("piece_{number}")).collect();

    let mut wanted: HashMap<u64, usize> = HashMap::new();
    for (index, stem) in stems.iter().enumerate() {
        let ending = &endings[(index * 7) % endings.len()];
        wanted.insert(id_of(&format!("mc/{stem}{ending}")), 0);
        wanted.insert(id_of(&format!("wc/{stem}")), 0);
        wanted.insert(id_of(stem), 0);
    }

    let mut plain = Search::new(&openings, &endings).run(&stems, &wanted);
    let mut fast = Meet::new(&openings, &endings).run(&stems, &wanted);

    plain.sort();
    fast.sort();
    plain.dedup();
    fast.dedup();

    assert_eq!(plain.len(), 600);
    assert_eq!(plain, fast);
}

/// A search with no endings at all still has a question to ask.
#[test]
fn a_search_with_no_endings_still_sweeps() {
    let openings: Vec<String> = ["arena/", "menu/"].iter().map(|t| (*t).to_owned()).collect();
    let stems: Vec<String> = (0..100).map(|number| format!("key_{number}")).collect();

    let mut wanted: HashMap<u64, usize> = HashMap::new();
    for (index, stem) in stems.iter().enumerate() {
        wanted.insert(id_of(&format!("{}{stem}", openings[index % 2])), 29);
    }

    let found = Meet::new(&openings, &[]).dressed_only().run(&stems, &wanted);

    assert_eq!(found.len(), stems.len());
}

/// A search over unfolded names reaches a backslashed name only through its exact spelling.
#[test]
fn an_unfolded_search_keeps_its_backslashes() {
    let openings: Vec<String> = vec![r"amb\".to_owned()];
    let endings: Vec<String> = vec![r"\wave_01".to_owned()];
    let stems: Vec<String> = vec!["water".to_owned(), "fire".to_owned()];
    let name = r"amb\water\wave_01";

    let mut wanted: HashMap<u64, usize> = HashMap::new();
    wanted.insert(hash64_raw(name) & 0x7FFF_FFFF_FFFF_FFFF, 0);

    let found = Meet::unfolded(&openings, &endings).dressed_only().run(&stems, &wanted);
    assert_eq!(found, vec![(hash64_raw(name) & 0x7FFF_FFFF_FFFF_FFFF, name.to_owned())]);

    let folded = Meet::new(&openings, &endings).dressed_only().run(&stems, &wanted);
    assert!(folded.is_empty(), "a folding search cannot reach an unfolded id");
}

/// Every candidate the plain search reports is a real candidate whose id is wanted.
#[test]
fn a_plain_search_reports_each_find_under_its_id() {
    let openings: Vec<String> = vec!["a/".to_owned()];
    let endings: Vec<String> = vec!["_x".to_owned(), "_y".to_owned()];
    let stems: Vec<String> = vec!["one".to_owned(), "two".to_owned()];

    let mut wanted: HashMap<u64, usize> = HashMap::new();
    for name in ["a/one_y", "two", "a/two", "b/one"] {
        wanted.insert(id_of(name), 0);
    }

    let mut found = Search::new(&openings, &endings).run(&stems, &wanted);
    found.sort();
    let mut expected = vec![
        (id_of("a/one_y"), "a/one_y".to_owned()),
        (id_of("two"), "two".to_owned()),
        (id_of("a/two"), "a/two".to_owned()),
    ];
    expected.sort();
    assert_eq!(found, expected);
}

/// The candidate counts multiply out exactly.
#[test]
fn both_searches_count_their_candidates_the_same_way() {
    let openings: Vec<String> = vec!["a/".to_owned(), "b/".to_owned()];
    let endings: Vec<String> = vec!["_x".to_owned(), "_y".to_owned(), "_z".to_owned()];
    assert_eq!(Search::new(&openings, &endings).candidates(10), 10 * 3 * 4);
    assert_eq!(Meet::new(&openings, &endings).candidates(10), 10 * 3 * 4);
    assert_eq!(Search::new(&openings, &endings).dressed_only().candidates(10), 10 * 2 * 4);
    assert_eq!(Meet::new(&openings, &endings).dressed_only().candidates(10), 10 * 2 * 4);
}

/// The cheaper way round is chosen, and either way the names are the same.
#[test]
fn the_best_search_gives_the_same_answer_either_way() {
    let (meet, plain) = costs(2, 3, 10, 4, true);
    assert_eq!(plain, 10 * 3 * 4);
    assert_eq!(meet, 10 * 3 + 3 * 8 * 80);

    let openings: Vec<String> = vec!["mc/".to_owned()];
    let endings: Vec<String> = (0..50).map(|number| format!("_{number}")).collect();
    let stems: Vec<String> = (0..50).map(|number| format!("s{number}")).collect();
    let mut wanted: HashMap<u64, usize> = HashMap::new();
    wanted.insert(id_of("mc/s7_42"), 0);
    wanted.insert(id_of("s9"), 0);

    let mut found = run_best(&openings, &endings, &stems, &wanted, true);
    found.sort();
    let mut expected = vec![(id_of("mc/s7_42"), "mc/s7_42".to_owned()), (id_of("s9"), "s9".to_owned())];
    expected.sort();
    assert_eq!(found, expected);
}

/// A name two candidates spell alike is reported once for each of them, by both searches.
#[test]
fn each_candidate_is_reported_once_by_either_search() {
    let openings: Vec<String> = ["ui/", "ui/", "fx/"].iter().map(|t| (*t).to_owned()).collect();
    let endings: Vec<String> = vec!["_a".to_owned(), "_b".to_owned()];
    let stems: Vec<String> = vec!["icon".to_owned(), "glow".to_owned()];

    let mut wanted: HashMap<u64, usize> = HashMap::new();
    wanted.insert(id_of("ui/icon_a"), 1);
    wanted.insert(id_of("fx/glow"), 1);

    let fast = Meet::new(&openings, &endings).dressed_only().run(&stems, &wanted);
    let plain = Search::new(&openings, &endings).dressed_only().run(&stems, &wanted);

    // `ui/icon_a` is two candidates (one per copy of `ui/`), `fx/glow` one.
    assert_eq!(fast.len(), 3);
    assert_eq!(plain.len(), 3);
    let count = |rows: &Vec<(u64, String)>, name: &str| rows.iter().filter(|row| row.1 == name).count();
    assert_eq!(count(&fast, "ui/icon_a"), 2);
    assert_eq!(count(&plain, "ui/icon_a"), 2);
    assert_eq!(count(&fast, "fx/glow"), 1);
}
