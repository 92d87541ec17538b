use slasher::notes::{human_duration, stamp, stamp_at, strip_stamp, RunNote};

/// A run note writes which engine confirmed it, and on what platform.
#[test]
fn a_run_note_records_which_engine_confirmed_it() {
    let note = RunNote::new("a method".to_owned(), "what it does".to_owned(), 1, "linux x86_64".to_owned());
    assert!(note.render().contains("- confirmed on: CPU\n"), "default backend not written");

    let rendered = note.render();
    assert!(rendered.contains("- platform: linux x86_64\n"), "the platform was not written: {rendered}");

    let gpu = RunNote::new("a method".to_owned(), "what it does".to_owned(), 1, "linux x86_64".to_owned())
        .computed_on("GPU (OpenCL, gfx1100)".to_owned());
    assert!(
        gpu.render().contains("- confirmed on: GPU (OpenCL, gfx1100)\n"),
        "an explicit backend is not written"
    );
}

/// The whole account, in order, with the fingerprint last among the lines.
#[test]
fn a_run_note_renders_every_line_in_order() {
    let note = RunNote::new("meet".to_owned(), "peels endings".to_owned(), 8049, "macos aarch64".to_owned())
        .measured("candidates".to_owned(), "45".to_owned())
        .measured("seeds".to_owned(), "3".to_owned())
        .fingerprint("abc123".to_owned())
        .next_step("widen the endings".to_owned());
    assert_eq!(
        note.render(),
        "- method: meet\n- what it does: peels endings\n- ran for: 2h 14m 09s\n- platform: macos aarch64\n- confirmed on: CPU\n- candidates: 45\n- seeds: 3\n- fingerprint: abc123\n\n**Next:** widen the endings\n"
    );
}

#[test]
fn durations_are_written_the_way_people_write_them() {
    assert_eq!(human_duration(8049), "2h 14m 09s");
    assert_eq!(human_duration(849), "14m 09s");
    assert_eq!(human_duration(42), "42s");
    assert_eq!(human_duration(0), "0s");
    assert_eq!(human_duration(3600), "1h 00m 00s");
    assert_eq!(human_duration(60), "1m 00s");
}

#[test]
fn a_stamp_is_the_utc_date_and_time() {
    assert_eq!(stamp_at(0), "19700101-000000");
    assert_eq!(stamp_at(951_782_400), "20000229-000000");
    assert_eq!(stamp_at(1_787_334_052), "20260821-174052");
    assert_eq!(stamp_at(4_102_444_799), "20991231-235959");
    assert_eq!(stamp().len(), 15);
}

#[test]
fn a_stamp_comes_off_a_file_name() {
    assert_eq!(strip_stamp("xmodel_20260819-174052"), "xmodel");
    assert_eq!(strip_stamp("sound_asset_20260819-174052"), "sound_asset");
    assert_eq!(strip_stamp("sound_asset"), "sound_asset");
    assert_eq!(strip_stamp("image_20260819-174052_20260820-000000"), "image");
    assert_eq!(strip_stamp("weird_--"), "weird_--");
    assert_eq!(strip_stamp("trailing_"), "trailing_");
    assert_eq!(strip_stamp("_123"), "");
}

#[test]
fn any_stamp_comes_off_again() {
    for seconds in [0u64, 1, 86_399, 951_782_400, 1_787_334_052, 4_102_444_800] {
        let stamped = format!("xmodel_{}", stamp_at(seconds));
        assert_eq!(strip_stamp(&stamped), "xmodel");
        let doubled = format!("{stamped}_{}", stamp_at(seconds + 1));
        assert_eq!(strip_stamp(&doubled), "xmodel");
    }
}

#[test]
fn a_century_is_a_leap_year_only_every_fourth_time() {
    assert_eq!(stamp_at(4_107_542_399), "21000228-235959");
    assert_eq!(stamp_at(4_107_542_400), "21000301-000000");
    assert_eq!(stamp_at(13_574_606_400), "24000229-120000");
}
