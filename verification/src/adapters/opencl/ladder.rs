//! The capability ladder: one rung per thing a driver could get wrong, lowest first.
//!
//! Somebody with a graphics card runs `gpuinfo` once and sends what it prints, so a failure has
//! to identify itself: "rung 6 (bytes read backwards) gives the wrong answer, rung 5 (the same
//! bytes forwards) is fine" is the end of an investigation rather than the start of one. What
//! each rung should produce is worked out here, and the device is held to it.

use vstd::prelude::*;
use vstd::wrapping::u64_specs;

use crate::adapters::cpu::{lemma_plain_fold_normalised, plain_fold};
use crate::hash::fold_bytes;
use crate::ports::backend::normalised;
use crate::hash::mix;
use crate::text::{decimal, decimal_spec, hex_padded, hex_padded_spec};
use crate::PRIME;

verus! {

/// How many values each rung is given. Small: this is a correctness ladder, not a benchmark.
pub const WIDTH: usize = 256;

/// The bytes every rung that reads bytes is given.
pub const BYTES: usize = 32;

/// The scalar handed to each rung, and the number of bytes the byte rungs fold.
pub const ARG: u64 = 17;

/// The spreading multiplier the rung input is made with.
pub const SPREAD: u64 = 0x9E37_79B9_7F4A_7C15;

pub struct Rung {
    /// The kernel to run.
    pub kernel: &'static str,
    /// What a person reading the report should understand this to mean.
    pub what: &'static str,
    /// What it tells you when this one fails and the one before it did not.
    pub so_what: &'static str,
}

/// How many rungs there are.
pub const RUNG_COUNT: usize = 10;

/// Each rung as its kernel, what it exercises, and what its failure means, lowest first. Rung
/// `i` runs kernel `rung_table()[i].0`, and [`expected_spec`] at `i` is what that kernel must
/// produce.
pub open spec fn rung_table() -> Seq<(Seq<char>, Seq<char>, Seq<char>)> {
    seq![
        ("rung_copy"@, "read a buffer and write another"@, "nothing below this is meaningful; the device is not running kernels at all"@),
        ("rung_mul_arg"@, "multiply 64-bit numbers, one of them a kernel argument"@, "either the multiply is wrong or the argument is not arriving; rung 3 separates them"@),
        ("rung_mul_literal"@, "the same multiply, by a constant"@, "the 64-bit multiply itself is wrong, which no correct answer can survive"@),
        ("rung_split_multiply"@, "the shift-and-add that replaces that multiply"@, "a 64-bit shift is being done at 32 bits somewhere"@),
        ("rung_bytes_forward"@, "read single bytes at a run-time index"@, "byte addressing is wrong, which breaks every stem and every ending"@),
        ("rung_bytes_backward"@, "the same bytes, walked backwards"@, "the loop that counts down is mishandled -- this is the rung Mesa 25.2 fails"@),
        ("rung_unrolled_window"@, "thirty-two bytes folded from registers, fully unrolled"@, "the unrolled fold is miscompiled; the forward sweep cannot be trusted"@),
        ("rung_binary_search"@, "binary search through a sorted table"@, "membership is wrong, so the search would either miss every name or claim all of them"@),
        ("rung_atomic"@, "atomic increment of a shared counter"@, "hits would be lost or double-counted, quietly"@),
        ("rung_grid_stride"@, "cover more work than the launch has threads"@, "candidates would be skipped or tried twice with no sign of it"@),
    ]
}

/// The rungs, lowest first, so that the first failure is the most specific thing that is wrong.
pub fn rungs() -> (out: Vec<Rung>)
    ensures
        out@.len() == RUNG_COUNT,
        forall|i: int|
            0 <= i < RUNG_COUNT ==> ((#[trigger] out@[i]).kernel@, out@[i].what@, out@[i].so_what@)
                == rung_table()[i],
{
    let mut out: Vec<Rung> = Vec::new();
    out.push(
        Rung {
            kernel: "rung_copy",
            what: "read a buffer and write another",
            so_what: "nothing below this is meaningful; the device is not running kernels at all",
        },
    );
    out.push(
        Rung {
            kernel: "rung_mul_arg",
            what: "multiply 64-bit numbers, one of them a kernel argument",
            so_what: "either the multiply is wrong or the argument is not arriving; rung 3 separates them",
        },
    );
    out.push(
        Rung {
            kernel: "rung_mul_literal",
            what: "the same multiply, by a constant",
            so_what: "the 64-bit multiply itself is wrong, which no correct answer can survive",
        },
    );
    out.push(
        Rung {
            kernel: "rung_split_multiply",
            what: "the shift-and-add that replaces that multiply",
            so_what: "a 64-bit shift is being done at 32 bits somewhere",
        },
    );
    out.push(
        Rung {
            kernel: "rung_bytes_forward",
            what: "read single bytes at a run-time index",
            so_what: "byte addressing is wrong, which breaks every stem and every ending",
        },
    );
    out.push(
        Rung {
            kernel: "rung_bytes_backward",
            what: "the same bytes, walked backwards",
            so_what: "the loop that counts down is mishandled -- this is the rung Mesa 25.2 fails",
        },
    );
    out.push(
        Rung {
            kernel: "rung_unrolled_window",
            what: "thirty-two bytes folded from registers, fully unrolled",
            so_what: "the unrolled fold is miscompiled; the forward sweep cannot be trusted",
        },
    );
    out.push(
        Rung {
            kernel: "rung_binary_search",
            what: "binary search through a sorted table",
            so_what: "membership is wrong, so the search would either miss every name or claim all of them",
        },
    );
    out.push(
        Rung {
            kernel: "rung_atomic",
            what: "atomic increment of a shared counter",
            so_what: "hits would be lost or double-counted, quietly",
        },
    );
    out.push(
        Rung {
            kernel: "rung_grid_stride",
            what: "cover more work than the launch has threads",
            so_what: "candidates would be skipped or tried twice with no sign of it",
        },
    );
    assert(out@.len() == 10);
    assert forall|i: int| 0 <= i < RUNG_COUNT implies ((#[trigger] out@[i]).kernel@, out@[i].what@,
        out@[i].so_what@) == rung_table()[i] by {
        assert(rung_table().len() == 10);
    }
    out
}

/// The `n`th value before sorting: spread by a multiplier, then halved.
pub open spec fn spread_value(n: int) -> u64 {
    u64_specs::wrapping_mul(n as u64, SPREAD) >> 1u64
}

/// The values every rung is given: spread by a multiplier and halved, then sorted with any
/// repeats taken out, because the search rung looks through this same array.
pub fn input() -> (out: Vec<u64>)
    ensures
        crate::ports::backend::ascending(out@),
        forall|i: int, j: int| 0 <= i < j < out@.len() ==> out@[i] < out@[j],
        forall|x: u64| #[trigger] out@.contains(x) <==> exists|n: int|
            0 <= n < WIDTH && x == spread_value(n),
{
    let mut values: Vec<u64> = Vec::new();
    let mut n: u64 = 0;
    while n < WIDTH as u64
        invariant
            n <= WIDTH,
            values@.len() == n,
            forall|k: int| 0 <= k < n ==> #[trigger] values@[k] == spread_value(k),
        decreases WIDTH - n,
    {
        values.push(n.wrapping_mul(SPREAD) >> 1);
        n = n + 1;
    }
    let ghost spread = values@;
    crate::search::sort_hashes(&mut values);
    proof {
        broadcast use vstd::seq_lib::group_to_multiset_ensures;

        assert forall|x: u64| #[trigger] values@.contains(x) <==> spread.contains(x) by {
            assert(values@.to_multiset().count(x) == spread.to_multiset().count(x));
        }
    }
    let out = crate::search::deduplicated(&values);
    proof {
        assert forall|x: u64| #[trigger] out@.contains(x) implies exists|n: int|
            0 <= n < WIDTH && x == spread_value(n) by {
            let k = choose|k: int| 0 <= k < spread.len() && spread[k] == x;
            assert(spread[k] == spread_value(k));
        }
        assert forall|x: u64| (exists|n: int|
            0 <= n < WIDTH && x == spread_value(n)) implies #[trigger] out@.contains(x) by {
            let n = choose|n: int|
                0 <= n < WIDTH && x == spread_value(n);
            assert(spread[n] == x);
            assert(spread.contains(x));
        }
    }
    out
}

/// The bytes every rung is given: `a` and the thirty-one characters after it.
pub fn bytes() -> (out: Vec<u8>)
    ensures
        out@.len() == BYTES,
        forall|i: int| 0 <= i < BYTES ==> #[trigger] out@[i] == 97 + i,
{
    let mut out: Vec<u8> = Vec::new();
    let mut n: u8 = 0;
    while n < BYTES as u8
        invariant
            n <= BYTES,
            out@.len() == n,
            forall|i: int| 0 <= i < n ==> #[trigger] out@[i] == 97 + i,
        decreases BYTES - n,
    {
        out.push(97u8 + n);
        n = n + 1;
    }
    out
}

/// What rung `rung` should produce from `input` and `bytes`.
pub open spec fn expected_spec(rung: int, input: Seq<u64>, bytes: Seq<u8>) -> Seq<u64> {
    let n = input.len() as int;
    let len = ARG as int;
    if rung == 0 {
        input
    } else if rung == 1 {
        input.map_values(|v: u64| u64_specs::wrapping_mul(v, ARG))
    } else if rung == 2 {
        input.map_values(|v: u64| u64_specs::wrapping_mul(v, PRIME))
    } else if rung == 3 {
        input.map_values(
            |v: u64|
                u64_specs::wrapping_add(
                    v << 40u64,
                    u64_specs::wrapping_mul(v, 435),
                ),
        )
    } else if rung == 4 || rung == 6 {
        input.map_values(|v: u64| plain_fold(v, bytes.subrange(0, len)))
    } else if rung == 5 {
        input.map_values(|v: u64| plain_fold(v, bytes.subrange(0, len).reverse()))
    } else if rung == 7 {
        Seq::new(n as nat, |i: int| if i % 2 == 0 { 1u64 } else { 0u64 })
    } else if rung == 8 {
        Seq::new(n as nat, |i: int| if i == 0 { n as u64 } else { 0u64 })
    } else {
        Seq::new(n as nat, |i: int| i as u64)
    }
}

/// A shift by forty and an add of 435 times the value is the multiply by the prime, modulo 2^64.
proof fn lemma_split_multiply(v: u64)
    ensures
        u64_specs::wrapping_add(v << 40u64, u64_specs::wrapping_mul(v, 435)) == u64_specs::wrapping_mul(
            v,
            PRIME,
        ),
{
    assert(((v << 40u64) + (v * 435) % 0x1_0000_0000_0000_0000) % 0x1_0000_0000_0000_0000 == (v
        * 0x100_0000_01B3) % 0x1_0000_0000_0000_0000) by (bit_vector);
}

/// Rung 3 is the multiply by the prime done as a shift and an add, so on every input it must
/// give what rung 2 gives; and rung 6 folds the same bytes as rung 4, only unrolled (the
/// window of thirty-two holds all [`ARG`] of them), so it must give what rung 4 gives.
pub proof fn law_rungs_that_agree(input: Seq<u64>, bytes: Seq<u8>)
    ensures
        expected_spec(3, input, bytes) == expected_spec(2, input, bytes),
        expected_spec(6, input, bytes) == expected_spec(4, input, bytes),
{
    assert forall|i: int| 0 <= i < input.len() implies #[trigger] expected_spec(3, input, bytes)[i]
        == expected_spec(2, input, bytes)[i] by {
        lemma_split_multiply(input[i]);
    }
    assert(expected_spec(3, input, bytes) =~= expected_spec(2, input, bytes));
}

/// The binary-search rung searches the sorted input for each of its values: an even index for
/// its own value, which is there, and an odd index for a value one greater, which is not. So
/// whatever the values, the answer is 1 at every even index and 0 at every odd one.
pub proof fn law_search_rung_alternates(input: Seq<u64>, bytes: Seq<u8>)
    ensures
        expected_spec(7, input, bytes).len() == input.len(),
        forall|i: int|
            0 <= i < input.len() ==> #[trigger] expected_spec(7, input, bytes)[i] == if i % 2 == 0 {
                1u64
            } else {
                0u64
            },
{
}

/// What the arithmetic rungs must give for each value, stated without the ladder's own
/// definitions: the copy gives the value; the two multiplies give it times 17 and times
/// 0x100_0000_01B3, modulo 2^64; the byte rungs give the raw hash of the first seventeen bytes fed
/// into the value, forwards and backwards, whenever none of those bytes is an upper-case letter
/// (which the hash would lower); the counter rung gives the count at index 0 and nothing
/// elsewhere; and the striding rung gives each index.
pub proof fn law_rungs_compute_what_they_name(input: Seq<u64>, bytes: Seq<u8>, i: int)
    requires
        0 <= i < input.len(),
    ensures
        expected_spec(0, input, bytes)[i] == input[i],
        expected_spec(1, input, bytes)[i] == u64_specs::wrapping_mul(input[i], 17),
        expected_spec(2, input, bytes)[i] == u64_specs::wrapping_mul(input[i], 0x100_0000_01B3),
        bytes.len() >= 17 && (forall|k: int| 0 <= k < 17 ==> !(65 <= #[trigger] bytes[k] <= 90))
            ==> expected_spec(4, input, bytes)[i] == fold_bytes(input[i], bytes.take(17), false)
            && expected_spec(5, input, bytes)[i] == fold_bytes(
            input[i],
            bytes.take(17).reverse(),
            false,
        ),
        expected_spec(8, input, bytes)[i] == if i == 0 {
            input.len() as u64
        } else {
            0u64
        },
        expected_spec(9, input, bytes)[i] == i as u64,
{
    if bytes.len() >= 17 && (forall|k: int| 0 <= k < 17 ==> !(65 <= #[trigger] bytes[k] <= 90)) {
        let t = bytes.take(17);
        assert(bytes.subrange(0, 17) =~= t);
        assert(normalised(t, false) =~= t);
        assert(normalised(t.reverse(), false) =~= t.reverse());
        lemma_plain_fold_normalised(input[i], t, false);
        lemma_plain_fold_normalised(input[i], t.reverse(), false);
    }
}

/// The ladder's values are the first [`WIDTH`] counts spread by the golden-ratio multiplier
/// 0x9E37_79B9_7F4A_7C15, modulo 2^64, then halved so that none has its top bit set.
pub proof fn law_the_ladder_values(n: int)
    ensures
        spread_value(n) == u64_specs::wrapping_mul(n as u64, 0x9E37_79B9_7F4A_7C15) >> 1u64,
        spread_value(n) <= 0x7FFF_FFFF_FFFF_FFFF,
{
    let x = u64_specs::wrapping_mul(n as u64, 0x9E37_79B9_7F4A_7C15);
    assert(x >> 1u64 <= 0x7FFF_FFFF_FFFF_FFFFu64) by (bit_vector);
}

/// Every rung gives one value per input value.
pub proof fn law_one_value_per_input(rung: int, input: Seq<u64>, bytes: Seq<u8>)
    requires
        0 <= rung < RUNG_COUNT,
    ensures
        expected_spec(rung, input, bytes).len() == input.len(),
{
}

/// The byte fold the CPU adapter does for real, over `text` from `hash`.
fn fold_forward(hash: u64, text: &[u8], len: usize) -> (out: u64)
    requires
        len <= text@.len(),
    ensures
        out == plain_fold(hash, text@.subrange(0, len as int)),
{
    let mut state = hash;
    let mut k: usize = 0;
    while k < len
        invariant
            k <= len <= text@.len(),
            state == plain_fold(hash, text@.subrange(0, k as int)),
        decreases len - k,
    {
        assert(text@.subrange(0, k + 1).drop_last() =~= text@.subrange(0, k as int));
        state = (state ^ (text[k] as u64)).wrapping_mul(PRIME);
        k = k + 1;
    }
    state
}

/// The same fold, walking the first `len` bytes backwards.
fn fold_backward(hash: u64, text: &[u8], len: usize) -> (out: u64)
    requires
        len <= text@.len(),
    ensures
        out == plain_fold(hash, text@.subrange(0, len as int).reverse()),
{
    let ghost whole = text@.subrange(0, len as int).reverse();
    let mut state = hash;
    let mut k: usize = 0;
    while k < len
        invariant
            k <= len <= text@.len(),
            whole == text@.subrange(0, len as int).reverse(),
            state == plain_fold(hash, whole.subrange(0, k as int)),
        decreases len - k,
    {
        assert(whole.subrange(0, k + 1).drop_last() =~= whole.subrange(0, k as int));
        assert(whole[k as int] == text@[len - 1 - k]);
        state = (state ^ (text[len - 1 - k] as u64)).wrapping_mul(PRIME);
        k = k + 1;
    }
    assert(whole.subrange(0, len as int) =~= whole);
    state
}

/// What the rung should produce, worked out here in plain Rust.
///
/// This is the definition. If it and the device disagree, the device is wrong -- which is only
/// true because every line below is the same arithmetic the CPU adapter does for real.
pub fn expected(rung: usize, input: &[u64], bytes: &[u8]) -> (out: Vec<u64>)
    requires
        rung < RUNG_COUNT,
        rung == 4 || rung == 5 || rung == 6 ==> bytes@.len() >= ARG,
        rung == 8 ==> input@.len() > 0,
    ensures
        out@ == expected_spec(rung as int, input@, bytes@),
{
    let n = input.len();
    let len = ARG as usize;
    let mut out: Vec<u64> = Vec::new();
    let mut i: usize = 0;
    while i < n
        invariant
            i <= n == input@.len(),
            rung < RUNG_COUNT,
            len == ARG,
            rung == 4 || rung == 5 || rung == 6 ==> bytes@.len() >= ARG,
            out@.len() == i,
            forall|k: int| 0 <= k < i ==> #[trigger] out@[k] == expected_spec(rung as int, input@, bytes@)[k],
        decreases n - i,
    {
        let v = input[i];
        let value = if rung == 0 {
            v
        } else if rung == 1 {
            v.wrapping_mul(ARG)
        } else if rung == 2 {
            v.wrapping_mul(PRIME)
        } else if rung == 3 {
            (v << 40u64).wrapping_add(v.wrapping_mul(435))
        } else if rung == 4 || rung == 6 {
            fold_forward(v, bytes, len)
        } else if rung == 5 {
            fold_backward(v, bytes, len)
        } else if rung == 7 {
            if i % 2 == 0 {
                1
            } else {
                0
            }
        } else if rung == 8 {
            if i == 0 {
                n as u64
            } else {
                0
            }
        } else {
            i as u64
        };
        out.push(value);
        i = i + 1;
    }
    assert(out@ =~= expected_spec(rung as int, input@, bytes@));
    out
}

/// What a disagreement on a rung says: how many values differ, and the first of them.
pub open spec fn rung_report(wrong: nat, total: nat, at: nat, got: u64, want: u64) -> Seq<char> {
    decimal_spec(wrong) + " of "@ + decimal_spec(total) + " values differ; the first is at index "@
        + decimal_spec(at) + ", where the device said "@ + hex_padded_spec(got as nat, 16)
        + " and the answer is "@ + hex_padded_spec(want as nat, 16)
}

/// How many positions two lists differ at, counting only where both have a value.
pub open spec fn differences(got: Seq<u64>, want: Seq<u64>, n: int) -> nat
    decreases n,
{
    if n <= 0 {
        0
    } else {
        differences(got, want, n - 1) + if got[n - 1] != want[n - 1] {
            1nat
        } else {
            0nat
        }
    }
}

/// The first position below `n` where two lists differ, or zero when none does.
pub open spec fn first_difference(got: Seq<u64>, want: Seq<u64>, n: int) -> int
    decreases n,
{
    if n <= 0 {
        0
    } else if differences(got, want, n - 1) == 0 && got[n - 1] != want[n - 1] {
        n - 1
    } else {
        first_difference(got, want, n - 1)
    }
}

/// Nothing differs exactly when every position agrees.
proof fn lemma_no_differences(got: Seq<u64>, want: Seq<u64>, n: int)
    requires
        0 <= n <= got.len(),
        n <= want.len(),
    ensures
        differences(got, want, n) == 0 <==> forall|i: int| 0 <= i < n ==> got[i] == want[i],
    decreases n,
{
    if n > 0 {
        lemma_no_differences(got, want, n - 1);
    }
}

/// A judgement counts each position where the two lists disagree once, the first included (so
/// the count is the first position's disagreement plus the count over the rest); nothing
/// differs exactly when every position agrees; and the first difference it names is the
/// earliest position that disagrees.
pub proof fn law_differences_are_counted_and_the_first_is_named(got: Seq<u64>, want: Seq<u64>, n: int)
    requires
        0 < n <= got.len(),
        n <= want.len(),
    ensures
        differences(got, want, n) == (if got[0] != want[0] { 1int } else { 0int }) + differences(
            got.skip(1),
            want.skip(1),
            n - 1,
        ),
        differences(got, want, n) == 0 <==> forall|i: int| 0 <= i < n ==> got[i] == want[i],
        forall|i: int|
            0 <= i < n && got[i] != want[i] && (forall|j: int| 0 <= j < i ==> got[j] == want[j])
                ==> #[trigger] first_difference(got, want, n) == i,
    decreases n,
{
    lemma_no_differences(got, want, n);
    if n == 1 {
        assert(differences(got.skip(1), want.skip(1), 0) == 0);
    } else {
        law_differences_are_counted_and_the_first_is_named(got, want, n - 1);
        assert(got.skip(1)[n - 2] == got[n - 1]);
        assert(want.skip(1)[n - 2] == want[n - 1]);
    }
    assert forall|i: int|
        0 <= i < n && got[i] != want[i] && (forall|j: int| 0 <= j < i ==> got[j] == want[j])
            implies #[trigger] first_difference(got, want, n) == i by {
        lemma_first_difference_is_earliest(got, want, n, i);
    }
}

/// The first difference below `n` is the earliest position that disagrees.
proof fn lemma_first_difference_is_earliest(got: Seq<u64>, want: Seq<u64>, n: int, i: int)
    requires
        0 <= i < n <= got.len(),
        n <= want.len(),
        got[i] != want[i],
        forall|j: int| 0 <= j < i ==> got[j] == want[j],
    ensures
        first_difference(got, want, n) == i,
    decreases n,
{
    lemma_no_differences(got, want, n - 1);
    if n - 1 > i {
        lemma_first_difference_is_earliest(got, want, n - 1, i);
    } else {
        assert(differences(got, want, n - 1) == 0);
    }
}

/// Whether a device's answer to a rung is the one it should be, and if not, the first
/// disagreement and how many there are -- three lines that name the problem rather than three
/// hundred that contain it.
pub fn judge(got: &[u64], want: &[u64]) -> (out: Result<(), String>)
    requires
        got@ != want@ ==> got@.len() > 0 && want@.len() > 0,
    ensures
        out is Ok <==> got@ == want@,
        out matches Err(report) ==> report@ == rung_report(
            differences(
                got@,
                want@,
                if got@.len() < want@.len() { got@.len() as int } else { want@.len() as int },
            ),
            want@.len(),
            first_difference(
                got@,
                want@,
                if got@.len() < want@.len() { got@.len() as int } else { want@.len() as int },
            ) as nat,
            got@[first_difference(
                got@,
                want@,
                if got@.len() < want@.len() { got@.len() as int } else { want@.len() as int },
            )],
            want@[first_difference(
                got@,
                want@,
                if got@.len() < want@.len() { got@.len() as int } else { want@.len() as int },
            )],
        ),
{
    if got.len() == want.len() {
        let mut same = true;
        let mut k: usize = 0;
        while k < got.len()
            invariant
                k <= got@.len() == want@.len(),
                same == forall|j: int| 0 <= j < k ==> got@[j] == want@[j],
            decreases got@.len() - k,
        {
            if got[k] != want[k] {
                same = false;
            }
            k = k + 1;
        }
        if same {
            assert(got@ =~= want@);
            return Ok(());
        }
    }
    let shortest = if got.len() < want.len() { got.len() } else { want.len() };
    let mut wrong: usize = 0;
    let mut first: usize = 0;
    let mut k: usize = 0;
    while k < shortest
        invariant
            k <= shortest <= got@.len(),
            shortest <= want@.len(),
            wrong == differences(got@, want@, k as int),
            first as int == first_difference(got@, want@, k as int),
            wrong <= k,
            first < shortest || k == 0 || first == 0,
        decreases shortest - k,
    {
        if got[k] != want[k] {
            if wrong == 0 {
                first = k;
            }
            wrong = wrong + 1;
        }
        k = k + 1;
    }
    let mut text = String::new();
    text.append(decimal(wrong as u64).as_str());
    text.append(" of ");
    text.append(decimal(want.len() as u64).as_str());
    text.append(" values differ; the first is at index ");
    text.append(decimal(first as u64).as_str());
    text.append(", where the device said ");
    text.append(hex_padded(got[first], 16).as_str());
    text.append(" and the answer is ");
    text.append(hex_padded(want[first], 16).as_str());
    Err(text)
}

} // verus!
