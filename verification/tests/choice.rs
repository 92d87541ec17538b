use slasher::adapters::opencl::choice::{
    best_first, device_wish, driver_version, named_device, report, DeviceFacts, DeviceWish,
    OVERRIDE,
};

#[test]
fn a_discrete_card_ranks_above_a_busier_processor() {
    let card = DeviceFacts { compute_units: 40, clock_mhz: 2_000, is_gpu: true };
    let processor = DeviceFacts { compute_units: 64, clock_mhz: 4_000, is_gpu: false };
    assert_eq!(card.rank(), 40 * 2_000 + 1_000_000_000);
    assert_eq!(processor.rank(), 64 * 4_000);
    assert!(card.rank() > processor.rank());

    let unclocked = DeviceFacts { compute_units: 7, clock_mhz: 0, is_gpu: false };
    assert_eq!(unclocked.rank(), 7);

    let largest = DeviceFacts { compute_units: u32::MAX, clock_mhz: u32::MAX, is_gpu: true };
    assert_eq!(largest.rank(), u64::from(u32::MAX) * u64::from(u32::MAX) + 1_000_000_000);
}

#[test]
fn devices_are_listed_best_first_and_ties_keep_their_order() {
    let none = |n: usize| vec![Vec::<u64>::new(); n];
    assert_eq!(best_first(&[5, 9, 5, 1], &none(4)), vec![1, 0, 2, 3]);
    assert_eq!(best_first(&[], &none(0)), Vec::<usize>::new());
    assert_eq!(best_first(&[3, 3, 3], &none(3)), vec![0, 1, 2]);
    assert_eq!(best_first(&[1, 2, 3], &none(3)), vec![2, 1, 0]);
}

/// One card enumerated once per installed driver ties on everything but the driver, and the
/// newer driver comes first.
#[test]
fn a_newer_driver_breaks_a_tie() {
    let drivers = vec![
        driver_version("3652.0 (PAL,LC)"),
        driver_version("3679.0 (PAL,LC)"),
        driver_version("3679.0 (PAL,LC)"),
    ];
    assert_eq!(best_first(&[7, 7, 7], &drivers), vec![1, 2, 0]);
    assert_eq!(best_first(&[9, 7, 7], &drivers), vec![0, 1, 2]);
    assert!(driver_version("10.0") > driver_version("9.9"));
}

#[test]
fn a_driver_version_is_its_runs_of_digits() {
    assert_eq!(driver_version("3679.0 (PAL,LC)"), vec![3679, 0]);
    assert_eq!(driver_version("535.104.05"), vec![535, 104, 5]);
    assert_eq!(driver_version("no numbers"), Vec::<u64>::new());
    assert_eq!(driver_version("99999999999999999999999"), vec![u64::MAX]);
}

#[test]
fn the_override_is_read_loosely() {
    assert!(matches!(device_wish(" OFF "), DeviceWish::Off));
    assert!(matches!(device_wish("0"), DeviceWish::Off));
    assert!(matches!(device_wish("Cpu"), DeviceWish::Off));
    assert!(matches!(device_wish(""), DeviceWish::Best));
    assert!(matches!(device_wish("Auto"), DeviceWish::Best));
    assert!(matches!(device_wish("1"), DeviceWish::Best));
    match device_wish(" 2 ") {
        DeviceWish::Named(text) => assert_eq!(text, "2"),
        _ => panic!("a number other than 0 and 1 names a device"),
    }
    match device_wish("Radeon") {
        DeviceWish::Named(text) => assert_eq!(text, "radeon"),
        _ => panic!("an unknown word names a device"),
    }
}

#[test]
fn a_named_device_must_exist() {
    assert_eq!(named_device("2", 3), Ok(2));
    assert_eq!(
        named_device("7", 3),
        Err("SLASHER_GPU=7 does not name a device; this machine has 3".to_owned())
    );
    assert_eq!(
        named_device("radeon", 1),
        Err(format!("{OVERRIDE}=radeon does not name a device; this machine has 1"))
    );
}

#[test]
fn the_listing_says_what_was_found() {
    assert_eq!(
        report(Err("no loader".to_owned())),
        "no OpenCL: no loader\n\nThe grind runs on the CPU exactly as it always has. Nothing is broken.\n"
    );
    assert_eq!(report(Ok(Err("no platform".to_owned()))), "OpenCL loaded, but: no platform\n");
    assert_eq!(
        report(Ok(Ok(vec!["[0] a".to_owned(), "[1] b".to_owned()]))),
        "2 usable device(s), best first:\n\n  [0] a\n  [1] b\n\nThe grind would use [0]. Set \
         SLASHER_GPU=off to keep it on the CPU, or SLASHER_GPU=N to pick another.\n"
    );
}
