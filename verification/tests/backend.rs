use std::collections::HashMap;

use slasher::adapters::cpu::Cpu;
use slasher::adapters::Preferred;
use slasher::ports::{Backend, Device, PeelRequest, PeeledSet, StemBatch, SweepRequest, Unsupported};
use slasher::{feed, feed_raw, hash64, peel, peel_raw, Filter, BASIS, ID_MASK, PRIME};

/// The fold belongs to the packing now, so it has to be exactly the fold it replaced.
#[test]
fn packing_folds_exactly_as_the_hash_does() {
    let names = ["Weapon\\AR\\Standard", "MAPS/MP/mp_Apocalypse", "already_lower", ""];

    for name in names {
        for fold in [true, false] {
            let packed = StemBatch::pack(&[name.to_owned()], fold);
            let at = packed.offsets[0] as usize;
            let len = packed.lengths[0] as usize;
            let bytes = &packed.bytes[at..at + len];

            let mine = bytes
                .iter()
                .fold(BASIS, |hash, byte| (hash ^ u64::from(*byte)).wrapping_mul(PRIME));

            let theirs = if fold {
                feed(BASIS, name.as_bytes())
            } else {
                feed_raw(BASIS, name.as_bytes())
            };

            assert_eq!(mine, theirs, "{name:?} with fold={fold}");
        }
    }
}

/// The window the kernel holds in registers is thirty-two bytes, and a stem may be longer.
#[test]
fn packing_pads_past_the_last_stem() {
    let packed = StemBatch::pack(
        &["short".to_owned(), "a_stem_that_is_definitely_longer_than_the_window".to_owned()],
        true,
    );
    let last = packed.offsets[1] as usize + packed.lengths[1] as usize;

    assert!(
        packed.bytes.len() >= last + slasher::ports::PACKED_BYTES,
        "the kernel reads a whole window past a stem's start and must not run off the buffer",
    );
    assert_eq!(packed.longest(), 48);
}

/// The CPU adapter's sweep, against the thing it is a rearrangement of.
#[test]
fn the_cpu_sweep_finds_what_hashing_by_hand_finds() {
    let openings: Vec<String> = (0..17).map(|n| format!("weapons/tier{n}/")).collect();
    let stems: Vec<String> = (0..3_000).map(|n| format!("part_{n:04}_body")).collect();
    let states: Vec<u64> = openings.iter().map(|opening| hash64(opening)).collect();

    let mut expected: Vec<u64> = Vec::new();
    let mut wanted: Vec<u64> = Vec::new();

    for (index, stem) in stems.iter().enumerate() {
        if index % 37 == 0 {
            let opening = index % states.len();
            wanted.push(feed(states[opening], stem.as_bytes()));
            expected.push(((index as u64) << 32) | opening as u64);
        }

        if index % 211 == 0 {
            wanted.push(hash64(stem));
            expected.push(((index as u64) << 32) | 0xFFFF_FFFF);
        }
    }

    wanted.sort_unstable();
    wanted.dedup();
    expected.sort_unstable();

    let packed = StemBatch::pack(&stems, true);
    let filter = Filter::sized(&wanted, wanted.len());
    let (coarse, fine, coarse_bits, fine_bits) = filter.parts();

    let request = SweepRequest {
        stems: &packed,
        openings: &states,
        bare: true,
        peeled: PeeledSet { hashes: &wanted, coarse, fine, coarse_bits, fine_bits },
    };

    let mut found = Cpu::with_threads(4).sweep(&request).expect("the CPU never declines");
    found.sort_unstable();

    assert_eq!(found, expected);
}

/// The CPU adapter's peel, against `peel` on the same endings.
#[test]
fn the_cpu_peel_is_the_peel_it_replaced() {
    let endings: Vec<String> =
        vec!["_c".into(), "\\Mixed\\Case.wav".into(), String::new(), "_n.xmodel".into()];

    let spellings: Vec<u64> = (0..64_u64)
        .flat_map(|n| {
            let id = hash64(&format!("asset/{n}")) & ID_MASK;
            [id, id | !ID_MASK]
        })
        .collect();

    for fold in [true, false] {
        let packed = StemBatch::pack(&endings, fold);
        let request = PeelRequest { spellings: &spellings, endings: &packed, no_ending: true };
        let got = Cpu::with_threads(4).peel(&request).expect("the CPU never declines");

        for (slot, spelling) in spellings.iter().enumerate() {
            assert_eq!(got[slot], *spelling, "row zero is the un-peeled id");

            for (row, ending) in endings.iter().enumerate() {
                let expected = if fold {
                    peel(*spelling, ending.as_bytes())
                } else {
                    peel_raw(*spelling, ending.as_bytes())
                };

                assert_eq!(
                    got[(row + 1) * spellings.len() + slot],
                    expected,
                    "ending {ending:?} off {spelling:016x} with fold={fold}",
                );
            }
        }
    }
}

/// The whole search, as a pass runs it.
#[test]
fn the_search_returns_the_same_names_whatever_ran_it() {
    let openings = ["weapons/".to_owned(), "maps/mp/".to_owned()];
    let endings = ["_c".to_owned(), "_n".to_owned(), "_lod0".to_owned()];
    let stems: Vec<String> = (0..500).map(|n| format!("asset_{n:03}")).collect();

    let planted = [
        "weapons/asset_007_c",
        "weapons/asset_100_n",
        "maps/mp/asset_222_lod0",
        "maps/mp/asset_499",
        "asset_050_c",
        "asset_333",
    ];

    let mut wanted: HashMap<u64, usize> = HashMap::new();

    for name in planted {
        wanted.insert(slasher::id_of(name), 0);
    }

    for decoy in 0..2_000 {
        wanted.insert(slasher::id_of(&format!("nothing/{decoy}")), 0);
    }

    let search = slasher::search::Meet::new(&openings, &endings);
    let mut found = search.run(&stems, &wanted);

    found.sort();
    found.dedup();

    let mut names: Vec<&str> = found.iter().map(|(_, name)| name.as_str()).collect();
    names.sort_unstable();

    let mut expected: Vec<&str> = planted.to_vec();
    expected.sort_unstable();

    assert_eq!(names, expected);

    // And the same through the preferred backend with no device, which is the processor.
    let processor = Cpu::with_threads(2);
    let mut again = search.run_on(&processor, &stems, &wanted);
    again.sort();
    again.dedup();
    assert_eq!(again, found);
}

/// A backend that turns everything down, as a device with too little memory would.
struct Refusing;

impl Device for Refusing {
    fn name(&self) -> String {
        "a device that declines".to_owned()
    }

    fn sweep(&self, _request: &SweepRequest) -> Result<Vec<u64>, Unsupported> {
        Err(Unsupported::new("too big".to_owned()))
    }

    fn peel(&self, _request: &PeelRequest) -> Result<Vec<u64>, Unsupported> {
        Err(Unsupported::new("too big".to_owned()))
    }
}

/// A device that declines is answered by the processor, explained once, and counted every time.
#[test]
fn a_declining_device_falls_back_and_is_counted() {
    let (mut preferred, notice) = Preferred::open(Ok(Some(Refusing)), Cpu::with_threads(1));
    assert_eq!(notice, "sweeping on a device that declines");
    assert!(preferred.on_device());
    assert_eq!(preferred.epilogue(), None);

    let stems: Vec<String> = vec!["one".to_owned(), "two".to_owned()];
    let states = vec![hash64("a/")];
    let wanted = vec![feed(states[0], b"two")];
    let packed = StemBatch::pack(&stems, true);
    let filter = Filter::sized(&wanted, wanted.len());
    let (coarse, fine, coarse_bits, fine_bits) = filter.parts();
    let request = SweepRequest {
        stems: &packed,
        openings: &states,
        bare: false,
        peeled: PeeledSet { hashes: &wanted, coarse, fine, coarse_bits, fine_bits },
    };

    let (first, said) = preferred.sweep(&request, slasher::adapters::verify::Wanted::Sample);
    assert_eq!(first.unwrap(), vec![(1_u64 << 32) | 0]);
    assert_eq!(said.as_deref(), Some("  falling back to the CPU for this batch: too big"));

    let (second, said) = preferred.sweep(&request, slasher::adapters::verify::Wanted::Sample);
    assert_eq!(second.unwrap(), vec![(1_u64 << 32) | 0]);
    assert_eq!(said, None);

    assert_eq!(
        preferred.epilogue().as_deref(),
        Some("2 batch(es) went to the processor because the device turned them down")
    );

    let (none, notice) = Preferred::<Refusing>::open(Ok(None), Cpu::with_threads(1));
    assert_eq!(notice, "");
    assert!(!none.on_device());
    assert_eq!(none.epilogue(), None);

    let (_, notice) = Preferred::<Refusing>::open(Err("no kernel".to_owned()), Cpu::with_threads(1));
    assert_eq!(notice, "GPU not used: no kernel");
}
