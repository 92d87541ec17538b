use slasher::pools::{
    low_value_reason, odd_for_pool, pool_index, pool_index_in, pool_label, pools, pools_for, ALIASES,
    BO4_POOLS, POOLS,
};

/// The five types a search asks for by default.
const DEFAULT_TYPES: [&str; 5] = ["xmodel", "xanim", "image", "material", "sound_asset"];

/// The five default types must resolve in both games, since both are ground now.
#[test]
fn the_default_types_resolve_in_both_games() {
    for table in [&POOLS[..], &BO4_POOLS[..]] {
        for kind in DEFAULT_TYPES {
            assert!(pool_index_in(table, kind).is_some(), "{kind} did not resolve");
        }
    }
}

/// Cold War must never be answered with an alias when it has the exact name itself.
#[test]
fn an_exact_name_wins_over_an_alias() {
    assert_eq!(pool_index_in(&POOLS, "sound_asset"), Some(19), "sound_asset is 19, not 17");
    assert_eq!(pool_index_in(&POOLS, "sound"), Some(17));
    assert_eq!(pool_index_in(&POOLS, "xmodel"), Some(6));
    assert_eq!(pool_index_in(&POOLS, "streamkey"), Some(184));
}

/// And the same five in Black Ops 4, where the numbering is different and `sound_asset` has to
/// fall through to its own appended pool.
#[test]
fn the_black_ops_4_numbering_is_its_own() {
    assert_eq!(pool_index_in(&BO4_POOLS, "xanim"), Some(3));
    assert_eq!(pool_index_in(&BO4_POOLS, "xmodel"), Some(4));
    assert_eq!(pool_index_in(&BO4_POOLS, "material"), Some(6));
    assert_eq!(pool_index_in(&BO4_POOLS, "image"), Some(9));
    assert_eq!(pool_index_in(&BO4_POOLS, "sound_asset"), Some(170), "the SAB sound pool");
    assert_eq!(pool_index_in(&BO4_POOLS, "sound"), Some(10), "the bank pool");
}

/// The lookup against Black Ops 4's table, which is where the mismatches bite.
#[test]
fn every_default_type_reaches_something_in_black_ops_4() {
    let find = |kind: &str| -> Option<usize> {
        let flattened = |name: &str| name.replace('_', "");

        BO4_POOLS
            .iter()
            .position(|pool| *pool == kind)
            .or_else(|| BO4_POOLS.iter().position(|pool| flattened(pool) == flattened(kind)))
            .or_else(|| {
                ALIASES
                    .iter()
                    .filter(|group| group.contains(&kind))
                    .find_map(|group| {
                        group.iter().find_map(|other| BO4_POOLS.iter().position(|pool| pool == other))
                    })
            })
    };

    assert_eq!(find("xmodel"), Some(4), "xmodel is 4 in Black Ops 4, not 6");
    assert_eq!(find("xanim"), Some(3));
    assert_eq!(find("image"), Some(9));
    assert_eq!(find("material"), Some(6));
    assert_eq!(find("sound_asset"), Some(170), "the SAB sound pool, not the bank pool");
    assert_eq!(find("sound"), Some(10), "the bank pool");
    assert_eq!(find("localizeentry"), Some(16), "spelled localize_entry there");
    assert_eq!(find("gesturetable"), Some(19), "spelled gesture_table there");
    assert_eq!(find("clip_map"), Some(11), "spelled clipmap there");
    assert_eq!(find("gfx_map"), Some(14), "called gfxworld there");
    assert_eq!(find("techset"), Some(8), "called technique_set there");
    assert_eq!(find("xmodelmesh"), Some(5), "unreachable in both, and must still be found");
}

/// The library's own lookup gives what the hand-written one above does.
#[test]
fn the_lookup_goes_exact_then_flat_then_alias() {
    assert_eq!(pool_index_in(&BO4_POOLS, "localizeentry"), Some(16));
    assert_eq!(pool_index_in(&BO4_POOLS, "gesturetable"), Some(19));
    assert_eq!(pool_index_in(&BO4_POOLS, "clip_map"), Some(11));
    assert_eq!(pool_index_in(&BO4_POOLS, "gfx_map"), Some(14));
    assert_eq!(pool_index_in(&BO4_POOLS, "techset"), Some(8));
    assert_eq!(pool_index_in(&BO4_POOLS, "animtree"), Some(42));
    assert_eq!(pool_index_in(&POOLS, "technique_set"), Some(15));
    assert_eq!(pool_index_in(&POOLS, "no_such_pool"), None);
    assert_eq!(pool_index_in(&[], "xmodel"), None);
}

/// Labels and lookups use the numbering of the game being ground.
#[test]
fn the_game_being_ground_decides_the_numbering() {
    assert_eq!(pools_for("BLKOPSCW").len(), POOLS.len());
    assert_eq!(pools_for("BLKOPS04").len(), BO4_POOLS.len());
    assert_eq!(pools_for("anything else")[6], "xmodel");
    assert_eq!(pool_label("BLKOPSCW", 6), "xmodel");
    assert_eq!(pool_label("BLKOPSCW", 184), "streamkey");
    assert_eq!(pool_label("BLKOPSCW", 5000), "pool_5000");
    assert_eq!(pool_index("BLKOPSCW", "xanim"), Some(5));
    assert_eq!(pool_label("BLKOPS04", 5), "xmodelmesh");
    assert_eq!(pool_index("BLKOPS04", "xmodel"), Some(4));
    assert_eq!(pools("BLKOPS04").len(), BO4_POOLS.len());
    assert_eq!(pools("BLKOPSCW").len(), POOLS.len());
}

/// A sound tail on a non-sound pool is flagged, never on a sound pool.
#[test]
fn a_sound_tail_on_a_model_is_flagged() {
    let why = odd_for_pool("xmodel", "survival/vox_beck_se_kill_01.rn75.pc.ea_item")
        .expect("a sound tail on an xmodel is odd");
    assert!(why.contains("filed as `xmodel`"));
    assert!(odd_for_pool("sound_asset", "amb/crow_00.rn75.pc.all.snd").is_none());
    assert!(odd_for_pool("xmodel", "p9_mal_clothes_tshirt").is_none());
    assert!(odd_for_pool("image", "a.ln75.b").is_some());
}

/// Each low-value pool carries its reason; anything else has none.
#[test]
fn low_value_pools_say_why() {
    assert!(low_value_reason("streamkey").unwrap().starts_with("the largest pool"));
    assert!(low_value_reason("localize_entry").is_some());
    assert!(low_value_reason("xmodelmesh").is_some());
    assert!(low_value_reason("xmodel").is_none());
}
