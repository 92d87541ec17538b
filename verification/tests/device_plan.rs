use slasher::adapters::opencl::plan::{
    fit, group_size, next_sweep, peel_chunks, peel_start, rows_that_fit, rung_launch, survivors,
    sweep_start, Fit, Start, SweepStep, Swept, HITS,
};

#[test]
fn a_sweep_with_nothing_to_do_is_empty_and_a_huge_one_is_declined() {
    assert!(matches!(sweep_start(0, 10), Start::Nothing));
    assert!(matches!(sweep_start(10, 0), Start::Nothing));
    assert!(matches!(sweep_start(10, 10), Start::Go));
    match sweep_start(u32::MAX as usize + 1, 10) {
        Start::Decline(why) => assert_eq!(why, "more stems than the kernel indexes"),
        _ => panic!("too many stems must be declined"),
    }
    match sweep_start(10, u32::MAX as usize + 1) {
        Start::Decline(why) => assert_eq!(why, "peeled set larger than the kernel indexes"),
        _ => panic!("too large a peeled set must be declined"),
    }
    assert!(matches!(peel_start(0, 3), Start::Nothing));
    assert!(matches!(peel_start(3, 3), Start::Go));
    assert!(matches!(peel_start(3, u32::MAX as usize + 1), Start::Decline(_)));
}

#[test]
fn an_overflow_is_retried_at_the_size_the_kernel_counted() {
    assert_eq!(HITS, 1 << 20);
    assert!(matches!(next_sweep(HITS, Swept::Done(vec![1, 2])), SweepStep::Finished(h) if h == vec![1, 2]));
    assert!(matches!(next_sweep(HITS, Swept::Overflowed(HITS + 5)), SweepStep::Retry(n) if n == HITS + 5));
    match next_sweep(HITS + 5, Swept::Overflowed(HITS + 5)) {
        SweepStep::GiveUp(why) => assert_eq!(why, "the device kept overflowing the hit buffer"),
        _ => panic!("a buffer already that large is given up on"),
    }
}

#[test]
fn only_survivors_in_the_peeled_set_are_hits() {
    let marks = [10, 11, 12, 13];
    let hashes = [5, 6, 7, 8];
    let peeled = [1, 6, 8, 9];
    assert_eq!(survivors(&marks, &hashes, &peeled), vec![11, 13]);
    assert_eq!(survivors(&[], &[], &peeled), Vec::<u64>::new());
}

#[test]
fn a_peel_is_cut_into_whole_rows() {
    let chunks = peel_chunks(7, 3, true);
    let shape: Vec<(usize, usize, bool, usize, usize)> = chunks
        .iter()
        .map(|c| (c.first_row, c.rows, c.no_ending, c.first_ending, c.endings))
        .collect();
    assert_eq!(shape, vec![(0, 3, true, 0, 2), (3, 3, false, 2, 3), (6, 1, false, 5, 1)]);

    let plain: Vec<(usize, usize, bool, usize, usize)> = peel_chunks(4, 4, false)
        .iter()
        .map(|c| (c.first_row, c.rows, c.no_ending, c.first_ending, c.endings))
        .collect();
    assert_eq!(plain, vec![(0, 4, false, 0, 4)]);
    assert!(peel_chunks(0, 5, true).is_empty());
}

#[test]
fn a_group_is_a_whole_number_of_preferred_multiples() {
    assert_eq!(group_size(1024, 1024, 64), 256);
    assert_eq!(group_size(200, 1024, 64), 192);
    assert_eq!(group_size(0, 96, 32), 96);
    assert_eq!(group_size(40, 1024, 64), 64);
    assert_eq!(group_size(100, 1024, 0), 100);
    assert_eq!(group_size(0, 0, 0), 1);
}

#[test]
fn a_rung_launch_covers_every_value_unless_it_strides() {
    assert_eq!(rung_launch(256, 256, false), (64, 256));
    assert_eq!(rung_launch(48, 100, false), (48, 144));
    assert_eq!(rung_launch(256, 256, true), (64, 64));
    assert_eq!(rung_launch(0, 0, false), (1, 1));
}

#[test]
fn buffers_are_held_to_the_allocation_cap_and_the_usable_memory() {
    assert!(matches!(fit(&[10, 20, 30], 25, 100, 80), Fit::TooBig(2)));
    assert!(matches!(fit(&[10, 20, 30], 0, 100, 50), Fit::TooMuch(60)));
    assert!(matches!(fit(&[10, 20, 30], 30, 0, 0), Fit::Fits));
    assert!(matches!(fit(&[], 1, 1, 0), Fit::Fits));
}

#[test]
fn a_peel_takes_as_many_rows_as_the_smaller_limit_allows() {
    assert_eq!(rows_that_fit(1000, 50, 80_000, 1_000_000, 0), Some(10));
    assert_eq!(rows_that_fit(1000, 5, 80_000, 1_000_000, 0), Some(5));
    assert_eq!(rows_that_fit(1000, 50, 0, 16_000, 0), Some(2));
    assert_eq!(rows_that_fit(1000, 50, 7_999, u64::MAX, 0), None);
    assert_eq!(rows_that_fit(1000, 50, 7_999, u64::MAX, 3), Some(3));
}
