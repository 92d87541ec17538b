use slasher::adapters::opencl::ffi::describe;
use slasher::adapters::opencl::ladder::{bytes, expected, input, judge, rungs, ARG, BYTES, WIDTH};
use slasher::{feed, BASIS, PRIME};

#[test]
fn the_ladder_input_is_sorted_and_spread() {
    let values = input();
    assert_eq!(values.len(), WIDTH);
    assert!(values.windows(2).all(|pair| pair[0] < pair[1]));
    assert_eq!(values[0], 0);
    assert_eq!(bytes().len(), BYTES);
    assert_eq!(bytes()[0], b'a');
    assert_eq!(bytes()[31], b'a' + 31);
    assert_eq!(rungs().len(), 10);
    assert_eq!(rungs()[5].kernel, "rung_bytes_backward");
}

#[test]
fn each_rung_expects_the_arithmetic_it_names() {
    let values = input();
    let data = bytes();

    assert_eq!(expected(0, &values, &data), values);
    assert_eq!(expected(1, &values, &data)[3], values[3].wrapping_mul(ARG));
    assert_eq!(expected(2, &values, &data)[3], values[3].wrapping_mul(PRIME));
    assert_eq!(
        expected(3, &values, &data)[7],
        (values[7] << 40).wrapping_add(values[7].wrapping_mul(435))
    );
    // The split multiply is the prime multiply by another name.
    assert_eq!(expected(3, &values, &data), expected(2, &values, &data));
    // Folding `a..q` forward from the basis is hashing that text.
    let forward = expected(4, &[BASIS], &data);
    assert_eq!(forward, vec![feed(BASIS, b"abcdefghijklmnopq")]);
    assert_eq!(expected(6, &[BASIS], &data), forward);
    let backward = expected(5, &[BASIS], &data);
    assert_eq!(backward, vec![feed(BASIS, b"qponmlkjihgfedcba")]);
    assert_eq!(expected(7, &values, &data)[..4], [1, 0, 1, 0]);
    let atomic = expected(8, &values, &data);
    assert_eq!(atomic[0], WIDTH as u64);
    assert!(atomic[1..].iter().all(|value| *value == 0));
    assert_eq!(expected(9, &values, &data)[200], 200);
}

#[test]
fn a_wrong_answer_names_its_first_difference() {
    assert_eq!(judge(&[1, 2, 3], &[1, 2, 3]), Ok(()));
    assert_eq!(
        judge(&[1, 9, 3, 8], &[1, 2, 3, 4]),
        Err("2 of 4 values differ; the first is at index 1, where the device said 0000000000000009 and the answer is 0000000000000002".to_owned())
    );
}

#[test]
fn an_error_code_is_described_in_words() {
    assert_eq!(describe(-4), "the device could not allocate a buffer this large (OpenCL error -4)");
    assert_eq!(describe(0), "success (OpenCL error 0)");
    assert_eq!(describe(-9999), "OpenCL error -9999");
    assert_eq!(describe(7), "OpenCL error 7");
}

#[test]
fn the_split_multiply_agrees_at_the_edges() {
    let edges = [0u64, 1, u64::MAX, 1 << 63, (1 << 24) - 1, 0xFFFF_FFFF];
    assert_eq!(expected(3, &edges, &bytes()), expected(2, &edges, &bytes()));
    assert_eq!(expected(3, &edges, &bytes())[2], u64::MAX.wrapping_mul(PRIME));
}

#[test]
fn the_rungs_run_their_kernels_in_order() {
    let kernels: Vec<&str> = rungs().iter().map(|rung| rung.kernel).collect();
    assert_eq!(
        kernels,
        [
            "rung_copy",
            "rung_mul_arg",
            "rung_mul_literal",
            "rung_split_multiply",
            "rung_bytes_forward",
            "rung_bytes_backward",
            "rung_unrolled_window",
            "rung_binary_search",
            "rung_atomic",
            "rung_grid_stride",
        ]
    );
    assert_eq!(rungs()[8].what, "atomic increment of a shared counter");
}
