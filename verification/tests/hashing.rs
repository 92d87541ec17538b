use slasher::{feed, feed_raw, hash64, hash64_raw, id_of, peel, peel_raw, Filter, BASIS, PRIME, PRIME_INVERSE};

/// The hash has to be the game's, and the normalisation is half of it: these reproduce
/// published table keys exactly.
#[test]
fn the_hash_reproduces_published_table_keys() {
    assert_eq!(
        id_of("mc/mtl_c_t9_gloves_02_nylon_green_darkstripe"),
        0x1630_1bbd_eda1_638c
    );
    assert_eq!(
        id_of("p9_mal_clothes_tshirt_crew_mens_hanging_electriccow_full"),
        0x4e09_38e3_6d88_3dcd
    );
}

/// A material name is a path and the directory is part of what is hashed.
#[test]
fn the_directory_is_part_of_a_material_name() {
    assert_ne!(
        id_of("mc/mtl_c_t9_gloves_02_nylon_green_darkstripe"),
        id_of("mtl_c_t9_gloves_02_nylon_green_darkstripe")
    );
}

#[test]
fn a_name_hashes_the_same_however_it_is_written() {
    assert_eq!(id_of("MC\\Mtl_Test"), id_of("mc/mtl_test"));
}

/// Folding has to give the same answer as hashing the whole string.
#[test]
fn folding_a_name_in_pieces_matches_hashing_it_whole() {
    let whole = hash64("i_mtl_wpn_t9_ak47_barrel_c");
    let folded = feed(feed(hash64("i_mtl_"), b"wpn_t9_ak47_barrel"), b"_c");

    assert_eq!(whole, folded);
}

/// The filter may say yes wrongly, which the map behind it catches. It may never say no wrongly.
#[test]
fn the_filter_never_rejects_an_id_it_holds() {
    let ids: Vec<u64> = (0..5_000).map(|n| id_of(&format!("test_{n}"))).collect();
    let filter = Filter::new(&ids);

    for id in &ids {
        assert!(filter.may_hold(*id));
    }
}

/// The inverse really is the prime's inverse, modulo 2^64.
#[test]
fn the_inverse_undoes_the_prime() {
    assert_eq!(PRIME.wrapping_mul(PRIME_INVERSE), 1);
    assert_eq!(PRIME_INVERSE, 0xCE96_5057_AFF6_957B);
}

/// The empty name is the offset basis, and one byte is one step of the fold.
#[test]
fn a_single_byte_is_one_step_of_the_fold() {
    assert_eq!(hash64(""), BASIS);
    assert_eq!(hash64("a"), (BASIS ^ 0x61).wrapping_mul(PRIME));
    assert_eq!(hash64("A"), hash64("a"));
    assert_eq!(peel(hash64("a"), b"a"), BASIS);
    assert_eq!(feed_raw(BASIS, b"\\"), (BASIS ^ 0x5C).wrapping_mul(PRIME));
    assert_eq!(feed(BASIS, b"\\"), (BASIS ^ 0x2F).wrapping_mul(PRIME));
    assert_eq!(peel_raw(hash64_raw("x\\y"), b"\\y"), hash64_raw("x"));
}

/// Feeding then peeling the same text gives back the hash it started from, for any start.
#[test]
fn peeling_returns_to_any_starting_hash() {
    for start in [0u64, 1, BASIS, u64::MAX, 0x8000_0000_0000_0000] {
        for text in [&b""[..], b"abc", b"MiXeD\\Path/01", b"\xff\x00\x7f"] {
            assert_eq!(peel(feed(start, text), text), start);
            assert_eq!(peel_raw(feed_raw(start, text), text), start);
            assert_eq!(feed(peel(start, text), text), start);
        }
    }
}

/// Only bit 63 is cleared from an id.
#[test]
fn an_id_is_the_hash_with_its_top_bit_cleared() {
    let name = "weapons/ar/standard";
    assert_eq!(id_of(name), hash64(name) & 0x7FFF_FFFF_FFFF_FFFF);
    assert!(id_of(name) < 0x8000_0000_0000_0000);
}

/// A filter sized for few ids keeps the default width; one sized for many widens.
#[test]
fn a_sized_filter_grows_with_its_contents() {
    let few: Vec<u64> = (0..10u64).collect();
    let filter = Filter::sized(&few, few.len());
    let (coarse, fine, coarse_bits, fine_bits) = filter.parts();
    assert_eq!(coarse_bits, 24);
    assert_eq!(fine_bits, 24);
    assert_eq!(coarse.len(), 1 << 18);
    assert_eq!(fine.len(), 1 << 18);
    for id in &few {
        assert!(filter.may_hold(*id));
    }

    let many = Filter::sized(&few, 5_000_000);
    let (_, _, coarse_bits, fine_bits) = many.parts();
    assert_eq!(coarse_bits, 26);
    assert_eq!(fine_bits, 26);
}

#[test]
fn only_ascii_letters_and_backslashes_are_normalised() {
    assert_eq!(hash64("Ärger\\MAP"), hash64("Ärger/map"));
    assert_ne!(hash64("Ärger/map"), hash64("ärger/map"));
    assert_eq!(hash64_raw("A\\B"), hash64_raw("a\\b"));
    assert_ne!(hash64_raw("a\\b"), hash64_raw("a/b"));
}
