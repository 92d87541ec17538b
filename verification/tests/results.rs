use slasher::results::Results;
use slasher::{feed_raw, BASIS, ID_MASK};

/// The two spellings of a path reach the same asset, and the one written down should be the one
/// the published tables use.
#[test]
fn a_backslash_path_is_written_with_forward_slashes() {
    let mut results = Results::default();
    results.add("sound_asset", 1, r"amb\animals\crow_00.rn75.pc.all.snd".to_owned());

    assert_eq!(results.names("sound_asset")[0], "amb/animals/crow_00.rn75.pc.all.snd");
}

#[test]
fn results_only_ever_grow() {
    let mut results = Results::default();
    results.add("image", 1, "first".to_owned());
    results.add("image", 1, "second".to_owned());
    results.add("image", 2, "third".to_owned());

    assert_eq!(results.len(), 2);
    assert_eq!(results.names("image").len(), 2);
    assert!(results.names("image").contains(&"first".to_owned()));
}

/// A stored name must reproduce the id stored beside it. That is the only thing a row means.
#[test]
fn an_unfolded_name_keeps_the_spelling_its_id_was_hashed_from() {
    let name = "fly\\emotes\\teddybear_in.ln100.pc.snd";
    let id = feed_raw(BASIS, name.as_bytes()) & ID_MASK;

    let mut kept = Results::loaded(&Vec::new()).keeping_spelling();
    kept.add("sound_asset", id, name.to_owned());

    let stored = kept.names("sound_asset");
    assert_eq!(stored, vec![name.to_owned()], "the spelling was rewritten");
    assert_eq!(
        feed_raw(BASIS, stored[0].as_bytes()) & ID_MASK,
        id,
        "a stored name must hash to the id stored beside it"
    );

    let mut folded = Results::loaded(&Vec::new());
    folded.add("xmodel", 1, "a\\b".to_owned());
    assert_eq!(folded.names("xmodel"), vec!["a/b".to_owned()]);
}

/// What was loaded counts as held, not as added; a later row for an id replaces an earlier one.
#[test]
fn loading_merges_files_and_adds_nothing() {
    let files = vec![
        ("image".to_owned(), vec![(1, "one".to_owned()), (2, "two".to_owned())]),
        ("xmodel".to_owned(), vec![(1, "model".to_owned())]),
        ("image".to_owned(), vec![(2, "two again".to_owned()), (3, "three".to_owned())]),
    ];
    let mut results = Results::loaded(&files);

    assert_eq!(results.len(), 4);
    assert_eq!(results.kinds(), 2);
    assert_eq!(results.added(), 0);
    let mut names = results.names("image");
    names.sort();
    assert_eq!(names, vec!["one".to_owned(), "three".to_owned(), "two again".to_owned()]);

    results.add("image", 3, "ignored".to_owned());
    results.add("image", 4, "four".to_owned());
    results.add("material", 9, "mc/brick".to_owned());
    assert_eq!(results.added(), 2);
    assert_eq!(results.len(), 6);
    assert_eq!(results.kinds(), 3);
    assert!(!results.is_empty());

    let ids = results.ids();
    for id in [1, 2, 3, 4, 9] {
        assert!(ids.contains(&id));
    }
    assert_eq!(ids.len(), 5);

    let mut all = results.all_names();
    all.sort();
    assert_eq!(all.len(), 6);
    assert!(all.contains(&"model".to_owned()));
}

/// A name whose shape would teach the wrong convention is kept, but not learned from.
#[test]
fn an_odd_name_is_kept_but_not_seeded() {
    let mut results = Results::default();
    results.add("xmodel", 1, "vox/beck_kill_01.rn75.pc.ea_item".to_owned());
    results.add("xmodel", 2, "p9_mal_clothes".to_owned());
    results.add("sound_asset", 3, "amb/crow.rn75.pc.snd".to_owned());

    assert_eq!(results.len(), 3);
    let mut seeds = results.seed_names();
    seeds.sort();
    assert_eq!(seeds, vec!["amb/crow.rn75.pc.snd".to_owned(), "p9_mal_clothes".to_owned()]);
    assert!(results.is_empty() == false);
    assert_eq!(Results::default().len(), 0);
    assert!(Results::default().is_empty());
}

/// The spelling a name is written down in, without adding it.
#[test]
fn the_spelling_follows_the_fold() {
    let results = Results::default();
    assert_eq!(results.spelling(r"a\b\c"), "a/b/c");
    let kept = Results::default().keeping_spelling();
    assert_eq!(kept.spelling(r"a\b\c"), r"a\b\c");
}

#[test]
fn an_odd_name_is_kept_and_flagged() {
    let mut results = Results::default();
    let why = results.add("xmodel", 7, r"fx\smoke.rn75.pc".to_owned());
    assert!(why.unwrap().contains("`xmodel`"));
    assert_eq!(results.names("xmodel")[0], "fx/smoke.rn75.pc");
    assert!(results.add("sound_asset", 8, "amb/crow.rn75.pc".to_owned()).is_none());
    assert!(results.add("xmodel", 9, "c_t8_body".to_owned()).is_none());
}

#[test]
fn a_run_folder_is_named_only_when_the_run_added_something() {
    let mut results = Results::default();
    assert_eq!(results.run_folder("20250101-000000", "sweep"), None);
    results.add("image", 3, "kept".to_owned());
    assert_eq!(
        results.run_folder("20250101-000000", "sweep"),
        Some("run_20250101-000000_sweep".to_owned())
    );
}
