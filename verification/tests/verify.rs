use slasher::adapters::cpu::Cpu;
use slasher::adapters::verify::{check, emitted, scatter, wanted_from, Trust, Verdict, Wanted, WINDOW};
use slasher::ports::{Backend, PeeledSet, StemBatch, SweepRequest};
use slasher::{feed, hash64, Filter};

/// A batch with enough planted hits, spread widely, that dropping one is a real disagreement.
fn a_batch() -> (Vec<String>, Vec<u64>, Vec<u64>) {
    let openings: Vec<u64> = (0..8).map(|n| hash64(&format!("weapons/tier{n}/"))).collect();
    let stems: Vec<String> = (0..20_000).map(|n| format!("part_{n:05}_body")).collect();

    let mut wanted: Vec<u64> = stems
        .iter()
        .enumerate()
        .filter(|(index, _)| index % 7 == 0)
        .map(|(index, stem)| feed(openings[index % openings.len()], stem.as_bytes()))
        .collect();

    wanted.sort_unstable();
    wanted.dedup();

    (stems, openings, wanted)
}

/// The whole point: a device that quietly loses a hit is caught.
#[test]
fn a_device_that_loses_a_hit_is_caught() {
    let (stems, openings, wanted) = a_batch();
    let packed = StemBatch::pack(&stems, true);
    let filter = Filter::sized(&wanted, wanted.len());
    let (coarse, fine, coarse_bits, fine_bits) = filter.parts();

    let request = SweepRequest {
        stems: &packed,
        openings: &openings,
        bare: true,
        peeled: PeeledSet { hashes: &wanted, coarse, fine, coarse_bits, fine_bits },
    };

    let cpu = Cpu::with_threads(4);
    let honest = cpu.sweep(&request).expect("the processor never declines");

    assert!(
        honest.len() > 100,
        "the fixture has to have enough hits for a dropped one to be findable"
    );

    assert!(
        matches!(check(&request, &honest, &cpu, Wanted::Sample), Verdict::Agreed),
        "an honest answer must pass, or every run would stop on its first batch"
    );

    let mut truncated = honest.clone();
    truncated.pop();

    assert!(
        matches!(check(&request, &truncated, &cpu, Wanted::Sample), Verdict::Disagreed(_)),
        "a device that dropped a hit was believed"
    );

    let mut invented = honest.clone();
    invented.push((1_u64 << 32) | 3);

    assert!(
        matches!(check(&request, &invented, &cpu, Wanted::Sample), Verdict::Disagreed(_)),
        "a device that invented a hit was believed"
    );
}

/// The bare hit is the largest opening index and the first thing the processor emits for its
/// stem.
#[test]
fn the_bare_hit_sorts_where_the_processor_emits_it() {
    let stem = 5_u64 << 32;
    let bare = stem | u64::from(u32::MAX);
    let first_opening = stem;

    assert_eq!(emitted(bare), (5, 0));
    assert_eq!(emitted(first_opening), (5, 1));
    assert!(emitted(bare) < emitted(first_opening));
}

/// The sample has to reach the end of the batch.
#[test]
fn the_sample_reaches_both_ends() {
    let picked = scatter(1_000_000);

    assert_eq!(picked.first(), Some(&0));
    assert_eq!(picked.last(), Some(&999_999));
    assert!(picked.len() >= WINDOW, "a sample of one window is not a sample");
}

/// A small batch is checked whole; a large one in eight windows that do not overlap.
#[test]
fn the_sample_is_all_of_a_small_batch() {
    let all = scatter(100);
    assert_eq!(all, (0..100).collect::<Vec<u32>>());
    assert!(scatter(0).is_empty());

    let picked = scatter(10_000);
    assert_eq!(picked.len(), 8 * 512);
    assert!(picked.windows(2).all(|pair| pair[0] < pair[1]));
    assert_eq!(picked[512], ((10_000 - 512) / 7) as u32);
}

/// The setting reads the way the documentation says.
#[test]
fn the_setting_chooses_how_much_is_checked() {
    assert!(matches!(wanted_from("off"), Wanted::Nothing));
    assert!(matches!(wanted_from("  FALSE \n"), Wanted::Nothing));
    assert!(matches!(wanted_from("0"), Wanted::Nothing));
    assert!(matches!(wanted_from("All"), Wanted::Everything));
    assert!(matches!(wanted_from("full"), Wanted::Everything));
    assert!(matches!(wanted_from(""), Wanted::Sample));
    assert!(matches!(wanted_from("sample"), Wanted::Sample));
    assert!(matches!(wanted_from("offish"), Wanted::Sample));
}

/// Checking nothing, or a batch with no stems, compares nothing.
#[test]
fn nothing_asked_is_nothing_compared() {
    let (stems, openings, wanted) = a_batch();
    let packed = StemBatch::pack(&stems[..10], true);
    let filter = Filter::sized(&wanted, wanted.len());
    let (coarse, fine, coarse_bits, fine_bits) = filter.parts();
    let request = SweepRequest {
        stems: &packed,
        openings: &openings,
        bare: true,
        peeled: PeeledSet { hashes: &wanted, coarse, fine, coarse_bits, fine_bits },
    };
    let cpu = Cpu::with_threads(1);

    assert!(matches!(check(&request, &[], &cpu, Wanted::Nothing), Verdict::Skipped));

    let honest = cpu.sweep(&request).unwrap();
    assert!(matches!(check(&request, &honest, &cpu, Wanted::Everything), Verdict::Agreed));

    let empty = StemBatch::pack(&[], true);
    let nothing = SweepRequest { stems: &empty, ..request };
    assert!(matches!(check(&nothing, &[], &cpu, Wanted::Sample), Verdict::Skipped));
}

/// A disagreement says how many names each side had that the other did not.
#[test]
fn a_disagreement_counts_both_ways() {
    let (stems, openings, wanted) = a_batch();
    let packed = StemBatch::pack(&stems[..100], true);
    let filter = Filter::sized(&wanted, wanted.len());
    let (coarse, fine, coarse_bits, fine_bits) = filter.parts();
    let request = SweepRequest {
        stems: &packed,
        openings: &openings,
        bare: true,
        peeled: PeeledSet { hashes: &wanted, coarse, fine, coarse_bits, fine_bits },
    };
    let cpu = Cpu::with_threads(1);
    let mut honest = cpu.sweep(&request).unwrap();
    honest.remove(0);
    honest.push((2_u64 << 32) | 1);

    match check(&request, &honest, &cpu, Wanted::Everything) {
        Verdict::Disagreed(why) => {
            assert!(why.starts_with("the device and the processor disagree on 100 of 100 stems: 1 name(s) the processor found that the device did not, and 1 the device reported"));
        },
        _ => panic!("a changed answer was believed"),
    }
}

/// Once broken, a device stays put away.
#[test]
fn trust_once_broken_stays_broken() {
    let mut trust = Trust::default();
    assert!(!trust.broken());
    trust.break_it();
    assert!(trust.broken());
    trust.break_it();
    assert!(trust.broken());
}
