//! Choosing a device: which of the devices found comes first, what the environment asks for,
//! and what the `gpuinfo` listing says.
//!
//! Finding the devices is the loader's work and stays with whoever holds it; what is decided
//! from what it reports is here.

use vstd::prelude::*;

use crate::names::{lowercase, lowercase_of};
use crate::text::{
    all_decimal, chars_of, count_number, decimal, decimal_digits_value, decimal_spec,
    decimal_value, is_space, law_counts_read_back, lemma_decimal_grow, lemma_decimal_reads_back,
    lemma_trim_blank, lemma_trim_padding, parse_count, same_text, string_from, trim_bounds,
    trimmed,
};

verus! {

/// How the environment can overrule the choice of device.
///
/// - unset, empty, or `auto`: pick the best device, fall back to the CPU if there is none
/// - `off` / `0` / `cpu`: never touch a GPU, even if one is there
/// - a number: use that device from the `gpuinfo` listing
///
/// A contributor whose driver is misbehaving needs a way to turn this off that does not involve
/// rebuilding anything, and a contributor with two GPUs needs a way to say which one.
pub const OVERRIDE: &'static str = "SLASHER_GPU";

/// Count OpenCL devices that are not graphics hardware as usable.
///
/// For continuous integration and for nothing else. A CPU OpenCL device is slower than the
/// thread pool the adapter exists to replace; what it buys is the ability to run the kernel on a
/// machine with no GPU.
pub const ALLOW_CPU: &'static str = "SLASHER_GPU_ALLOW_CPU";

/// What a device reports that decides which one is picked by default.
pub struct DeviceFacts {
    pub compute_units: u32,
    pub clock_mhz: u32,
    pub is_gpu: bool,
}

/// How a device ranks: compute units times clock, and a discrete GPU ahead of anything else.
pub open spec fn rank_spec(compute_units: u32, clock_mhz: u32, is_gpu: bool) -> int {
    let raw = compute_units * if clock_mhz < 1 {
        1int
    } else {
        clock_mhz as int
    };
    if is_gpu {
        raw + 1_000_000_000
    } else {
        raw
    }
}

impl DeviceFacts {
    /// A rough ordering, good enough to pick a default and not pretending to be more.
    ///
    /// Compute units times clock is a poor model of throughput and an adequate model of "which of
    /// these two is the discrete card". A discrete GPU beats anything the CPU runtime offers,
    /// even when the arithmetic says otherwise: a CPU device reports every core as a compute unit
    /// and would win on paper while being the thing this adapter exists to avoid.
    pub fn rank(&self) -> (out: u64)
        ensures
            out == rank_spec(self.compute_units, self.clock_mhz, self.is_gpu),
    {
        let clock: u64 = if self.clock_mhz < 1 {
            1
        } else {
            self.clock_mhz as u64
        };
        let units = self.compute_units as u64;
        assert(units * clock <= 0xFFFF_FFFFu64 * 0xFFFF_FFFFu64) by (nonlinear_arith)
            requires
                units <= 0xFFFF_FFFFu64,
                clock <= 0xFFFF_FFFFu64,
        ;
        let raw = units * clock;
        if self.is_gpu {
            raw + 1_000_000_000
        } else {
            raw
        }
    }
}

/// Whether driver version `a` is newer than `b`: at the first place they differ, `a`'s number
/// is the larger, or `b` stops there and `a` goes on.
pub open spec fn newer(a: Seq<u64>, b: Seq<u64>) -> bool
    decreases a.len(),
{
    if a.len() == 0 {
        false
    } else if b.len() == 0 {
        true
    } else if a[0] != b[0] {
        a[0] > b[0]
    } else {
        newer(a.drop_first(), b.drop_first())
    }
}

/// No version is newer than itself.
proof fn lemma_newer_irreflexive(a: Seq<u64>)
    ensures
        !newer(a, a),
    decreases a.len(),
{
    if a.len() > 0 {
        lemma_newer_irreflexive(a.drop_first());
    }
}

/// Newer than newer is newer.
proof fn lemma_newer_transitive(a: Seq<u64>, b: Seq<u64>, c: Seq<u64>)
    requires
        newer(a, b),
        newer(b, c),
    ensures
        newer(a, c),
    decreases a.len(),
{
    if a.len() > 0 && b.len() > 0 && c.len() > 0 && a[0] == b[0] && b[0] == c[0] {
        lemma_newer_transitive(a.drop_first(), b.drop_first(), c.drop_first());
    }
}

/// Of two different versions, one is newer.
proof fn lemma_newer_total(a: Seq<u64>, b: Seq<u64>)
    ensures
        a == b || newer(a, b) || newer(b, a),
    decreases a.len(),
{
    if a.len() > 0 && b.len() > 0 && a[0] == b[0] {
        lemma_newer_total(a.drop_first(), b.drop_first());
        if a.drop_first() == b.drop_first() {
            assert(a =~= seq![a[0]] + a.drop_first());
            assert(b =~= seq![b[0]] + b.drop_first());
        }
    } else if a.len() == 0 && b.len() == 0 {
        assert(a =~= b);
    }
}

/// Whether device `a` is listed before device `b`: a higher rank first; among equal ranks the
/// newer driver, since one card can be enumerated once per installed driver and the entries tie
/// on everything else; and among those the one found first.
pub open spec fn listed_before(ranks: Seq<u64>, drivers: Seq<Seq<u64>>, a: usize, b: usize) -> bool {
    ||| ranks[a as int] > ranks[b as int]
    ||| ranks[a as int] == ranks[b as int] && newer(drivers[a as int], drivers[b as int])
    ||| ranks[a as int] == ranks[b as int] && drivers[a as int] == drivers[b as int] && a < b
}

/// The listing order is an order: it passes along.
proof fn lemma_listed_transitive(ranks: Seq<u64>, drivers: Seq<Seq<u64>>, a: usize, b: usize, c: usize)
    requires
        listed_before(ranks, drivers, a, b),
        listed_before(ranks, drivers, b, c),
    ensures
        listed_before(ranks, drivers, a, c),
{
    if ranks[a as int] == ranks[b as int] && ranks[b as int] == ranks[c as int] {
        let (x, y, z) = (drivers[a as int], drivers[b as int], drivers[c as int]);
        if newer(x, y) && newer(y, z) {
            lemma_newer_transitive(x, y, z);
        }
    }
}

/// Of two different devices, one is listed before the other.
proof fn lemma_listed_total(ranks: Seq<u64>, drivers: Seq<Seq<u64>>, a: usize, b: usize)
    requires
        a != b,
    ensures
        listed_before(ranks, drivers, a, b) || listed_before(ranks, drivers, b, a),
{
    lemma_newer_total(drivers[a as int], drivers[b as int]);
}

/// A number with one more decimal digit written after it, stopping at the largest `u64`.
pub open spec fn grow(current: Option<u64>, digit: char) -> u64 {
    let before = match current {
        Some(value) => value as int,
        None => 0int,
    };
    let after = before * 10 + (digit as int - '0' as int);
    if after > u64::MAX {
        u64::MAX
    } else {
        after as u64
    }
}

/// The runs of decimal digits in `text` from `i` on, as numbers, with `current` the run already
/// under way.
pub open spec fn runs_from(text: Seq<char>, i: int, current: Option<u64>) -> Seq<u64>
    decreases text.len() - i,
{
    let closed = match current {
        Some(value) => seq![value],
        None => Seq::empty(),
    };
    if i < 0 || i >= text.len() {
        closed
    } else if '0' <= text[i] <= '9' {
        runs_from(text, i + 1, Some(grow(current, text[i])))
    } else {
        closed + runs_from(text, i + 1, None)
    }
}

/// The numbers of a driver version as a driver writes it, such as `3679.0 (PAL,LC)` or
/// `535.104.05`: each run of decimal digits, in order, a number too large for 64 bits counting
/// as the largest.
pub open spec fn version_numbers(text: Seq<char>) -> Seq<u64> {
    runs_from(text, 0, None)
}

/// Reading from inside a later part of a text reads that part alone.
proof fn lemma_runs_shift(p: Seq<char>, t: Seq<char>, j: int, current: Option<u64>)
    requires
        0 <= j <= t.len(),
    ensures
        runs_from(p + t, p.len() + j, current) == runs_from(t, j, current),
    decreases t.len() - j,
{
    if j < t.len() {
        assert((p + t)[p.len() + j] == t[j]);
        lemma_runs_shift(p, t, j + 1, Some(grow(current, t[j])));
        lemma_runs_shift(p, t, j + 1, None);
    }
}

/// A character that is not a digit ends a run, and the numbers of what follows it come after.
proof fn lemma_runs_split(t1: Seq<char>, c: char, t2: Seq<char>, i: int, current: Option<u64>)
    requires
        0 <= i <= t1.len(),
        !('0' <= c <= '9'),
    ensures
        runs_from(t1 + seq![c] + t2, i, current) == runs_from(t1, i, current) + runs_from(t2, 0, None),
    decreases t1.len() - i,
{
    let whole = t1 + seq![c] + t2;
    if i < t1.len() {
        assert(whole[i] == t1[i]);
        lemma_runs_split(t1, c, t2, i + 1, Some(grow(current, t1[i])));
        lemma_runs_split(t1, c, t2, i + 1, None);
        let closed = match current {
            Some(value) => seq![value],
            None => Seq::<u64>::empty(),
        };
        assert(closed + runs_from(t1, i + 1, None) + runs_from(t2, 0, None) =~= closed + (runs_from(
            t1,
            i + 1,
            None,
        ) + runs_from(t2, 0, None)));
    } else {
        assert(whole[i] == c);
        assert(whole =~= (t1 + seq![c]) + t2);
        lemma_runs_shift(t1 + seq![c], t2, 0, None);
    }
}

/// A run of decimal digits reads as the number it spells, when that fits.
proof fn lemma_runs_digits(d: Seq<char>, i: int)
    requires
        d.len() > 0,
        all_decimal(d),
        decimal_digits_value(d) <= u64::MAX,
        0 <= i <= d.len(),
    ensures
        runs_from(d, i, if i == 0 { None } else { Some(decimal_digits_value(d.subrange(0, i)) as u64) })
            == seq![decimal_digits_value(d) as u64],
    decreases d.len() - i,
{
    lemma_decimal_grow(d, i);
    lemma_decimal_grow(d, 0);
    if i < d.len() {
        lemma_decimal_grow(d, i + 1);
        assert(decimal_value(d[i]) >= 0);
        let before = if i == 0 { 0int } else { decimal_digits_value(d.subrange(0, i)) };
        assert(d.subrange(0, i + 1).drop_last() =~= d.subrange(0, i));
        assert(d.subrange(0, i + 1).last() == d[i]);
        if i == 0 {
            assert(d.subrange(0, 0) =~= Seq::<char>::empty());
        }
        assert(decimal_digits_value(d.subrange(0, i + 1)) == before * 10 + decimal_value(d[i]));
        let current = if i == 0 { None } else { Some(decimal_digits_value(d.subrange(0, i)) as u64) };
        if i > 0 {
            let prefix = d.subrange(0, i);
            assert(all_decimal(prefix)) by {
                assert forall|k: int| 0 <= k < prefix.len() implies decimal_value(#[trigger] prefix[k])
                    >= 0 by {
                    assert(prefix[k] == d[k]);
                }
            }
            lemma_decimal_grow(prefix, 0);
            assert(0 <= before <= u64::MAX);
            assert(current == Some(before as u64));
        }
        let after = before * 10 + decimal_value(d[i]);
        assert(decimal_value(d[i]) == d[i] as int - '0' as int);
        assert(0 <= after <= u64::MAX);
        assert(grow(current, d[i]) == after as u64);
        lemma_runs_digits(d, i + 1);
    } else {
        assert(d.subrange(0, i) =~= d);
    }
}

/// A driver version reads as the numbers written in it, in order: a number written in
/// decimal reads as itself, and a character that is not a digit parts it from the numbers that
/// follow.
pub proof fn law_a_version_reads_as_its_numbers(a: nat, c: char, rest: Seq<char>)
    requires
        a <= u64::MAX,
        !('0' <= c <= '9'),
    ensures
        version_numbers(decimal_spec(a)) == seq![a as u64],
        version_numbers(decimal_spec(a) + seq![c] + rest) == seq![a as u64] + version_numbers(rest),
{
    lemma_decimal_reads_back(a);
    lemma_runs_digits(decimal_spec(a), 0);
    lemma_runs_split(decimal_spec(a), c, rest, 0, None);
}

/// Reads a driver version into its numbers, for [`best_first`] to compare.
pub fn driver_version(text: &str) -> (out: Vec<u64>)
    ensures
        out@ == version_numbers(text@),
{
    let chars = chars_of(text);
    let mut out: Vec<u64> = Vec::new();
    let mut current: Option<u64> = None;
    let mut i: usize = 0;
    while i < chars.len()
        invariant
            i <= chars@.len(),
            chars@ == text@,
            version_numbers(text@) == out@ + runs_from(text@, i as int, current),
        decreases chars@.len() - i,
    {
        let c = chars[i];
        let ghost before = out@;
        if '0' <= c && c <= '9' {
            let digit = (c as u32 - '0' as u32) as u64;
            let value = match current {
                Some(v) => v,
                None => 0,
            };
            let grown = match value.checked_mul(10) {
                Some(tens) => match tens.checked_add(digit) {
                    Some(n) => n,
                    None => u64::MAX,
                },
                None => u64::MAX,
            };
            proof {
                assert(grown == grow(current, c));
            }
            current = Some(grown);
        } else {
            match current {
                Some(v) => {
                    out.push(v);
                },
                None => {},
            }
            proof {
                assert(out@ + runs_from(text@, i + 1, None) =~= before + runs_from(
                    text@,
                    i as int,
                    current,
                ));
            }
            current = None;
        }
        i = i + 1;
    }
    let ghost before = out@;
    match current {
        Some(v) => {
            out.push(v);
        },
        None => {},
    }
    assert(out@ =~= before + runs_from(text@, i as int, current));
    out
}

/// Whether version `a` is newer than `b`.
fn newer_version(a: &Vec<u64>, b: &Vec<u64>) -> (out: bool)
    ensures
        out == newer(a@, b@),
{
    let mut i: usize = 0;
    assert(a@.skip(0) =~= a@);
    assert(b@.skip(0) =~= b@);
    while i < a.len() && i < b.len() && a[i] == b[i]
        invariant
            i <= a@.len(),
            i <= b@.len(),
            newer(a@, b@) == newer(a@.skip(i as int), b@.skip(i as int)),
        decreases a@.len() - i,
    {
        assert(a@.skip(i as int).drop_first() =~= a@.skip(i + 1));
        assert(b@.skip(i as int).drop_first() =~= b@.skip(i + 1));
        i = i + 1;
    }
    proof {
        if i < a@.len() && i < b@.len() {
            assert(a@.skip(i as int)[0] == a@[i as int]);
            assert(b@.skip(i as int)[0] == b@[i as int]);
        }
    }
    if i == a.len() {
        false
    } else if i == b.len() {
        true
    } else {
        a[i] > b[i]
    }
}

/// Whether two versions are the same.
fn same_version(a: &Vec<u64>, b: &Vec<u64>) -> (out: bool)
    ensures
        out == (a@ == b@),
{
    if a.len() != b.len() {
        return false;
    }
    let mut i: usize = 0;
    while i < a.len()
        invariant
            i <= a@.len() == b@.len(),
            forall|j: int| 0 <= j < i ==> a@[j] == b@[j],
        decreases a@.len() - i,
    {
        if a[i] != b[i] {
            return false;
        }
        i = i + 1;
    }
    assert(a@ =~= b@);
    true
}

/// Whether device `a` is listed before device `b`, computed.
fn comes_before(ranks: &[u64], drivers: &[Vec<u64>], a: usize, b: usize) -> (out: bool)
    requires
        a < ranks@.len(),
        b < ranks@.len(),
        drivers@.len() == ranks@.len(),
    ensures
        out == listed_before(ranks@, drivers@.map_values(|v: Vec<u64>| v@), a, b),
{
    let ghost versions = drivers@.map_values(|v: Vec<u64>| v@);
    assert(versions[a as int] == drivers@[a as int]@);
    assert(versions[b as int] == drivers@[b as int]@);
    if ranks[a] != ranks[b] {
        ranks[a] > ranks[b]
    } else if newer_version(&drivers[a], &drivers[b]) {
        true
    } else {
        same_version(&drivers[a], &drivers[b]) && a < b
    }
}

/// The devices, as their places in `ranks`, best first: each once, a higher rank before a lower
/// one, among equal ranks the newer driver (`drivers` holds each device's driver version as its
/// numbers), and otherwise in the order they were found.
pub fn best_first(ranks: &[u64], drivers: &[Vec<u64>]) -> (out: Vec<usize>)
    requires
        drivers@.len() == ranks@.len(),
    ensures
        out@.len() == ranks@.len(),
        forall|i: int| 0 <= i < out@.len() ==> (#[trigger] out@[i] as int) < ranks@.len(),
        forall|k: usize| (k as int) < ranks@.len() ==> #[trigger] out@.contains(k),
        forall|i: int, j: int|
            0 <= i < j < out@.len() ==> listed_before(
                ranks@,
                drivers@.map_values(|v: Vec<u64>| v@),
                #[trigger] out@[i],
                #[trigger] out@[j],
            ),
{
    let ghost versions = drivers@.map_values(|v: Vec<u64>| v@);
    let mut list: Vec<usize> = Vec::new();
    let mut k: usize = 0;
    while k < ranks.len()
        invariant
            k <= ranks@.len(),
            drivers@.len() == ranks@.len(),
            versions == drivers@.map_values(|v: Vec<u64>| v@),
            list@.len() == k,
            forall|i: int| 0 <= i < list@.len() ==> (#[trigger] list@[i] as int) < k,
            forall|e: usize| e < k ==> #[trigger] list@.contains(e),
            forall|i: int, j: int|
                0 <= i < j < list@.len() ==> listed_before(
                    ranks@,
                    versions,
                    #[trigger] list@[i],
                    #[trigger] list@[j],
                ),
        decreases ranks@.len() - k,
    {
        let mut p: usize = 0;
        while p < list.len() && comes_before(ranks, drivers, list[p], k)
            invariant
                p <= list@.len(),
                k < ranks@.len(),
                drivers@.len() == ranks@.len(),
                versions == drivers@.map_values(|v: Vec<u64>| v@),
                forall|i: int| 0 <= i < list@.len() ==> (#[trigger] list@[i] as int) < k,
                forall|i: int| 0 <= i < p ==> listed_before(ranks@, versions, #[trigger] list@[i], k),
            decreases list@.len() - p,
        {
            p = p + 1;
        }
        let ghost before = list@;
        proof {
            if p < before.len() {
                assert(!listed_before(ranks@, versions, before[p as int], k));
                lemma_listed_total(ranks@, versions, before[p as int], k);
            }
        }
        list.insert(p, k);
        proof {
            assert forall|i: int, j: int| 0 <= i < j < list@.len() implies listed_before(
                ranks@,
                versions,
                #[trigger] list@[i],
                #[trigger] list@[j],
            ) by {
                if j < p {
                    assert(list@[i] == before[i] && list@[j] == before[j]);
                } else if j == p {
                    assert(list@[i] == before[i]);
                } else if i == p {
                    assert(list@[j] == before[j - 1]);
                    if j - 1 > p {
                        assert(listed_before(ranks@, versions, before[p as int], before[j - 1]));
                        lemma_listed_transitive(ranks@, versions, k, before[p as int], before[j - 1]);
                    }
                } else if i < p {
                    assert(list@[i] == before[i] && list@[j] == before[j - 1]);
                } else {
                    assert(list@[i] == before[i - 1] && list@[j] == before[j - 1]);
                }
            }
            assert forall|i: int| 0 <= i < list@.len() implies (#[trigger] list@[i] as int) < k
                + 1 by {
                if i < p {
                    assert(list@[i] == before[i]);
                } else if i > p {
                    assert(list@[i] == before[i - 1]);
                }
            }
            assert forall|e: usize| e < k + 1 implies #[trigger] list@.contains(e) by {
                if e < k {
                    assert(before.contains(e));
                    let i = choose|i: int| 0 <= i < before.len() && before[i] == e;
                    if i < p {
                        assert(list@[i] == before[i]);
                    } else {
                        assert(list@[i + 1] == before[i]);
                    }
                } else {
                    assert(list@[p as int] == k);
                }
            }
        }
        k = k + 1;
    }
    list
}

/// What the override asks for.
pub enum DeviceWish {
    /// Never touch a GPU.
    Off,
    /// The best device there is.
    Best,
    /// Something else, to be read as a device's number: the setting, lowered and trimmed.
    Named(String),
}

/// The setting as it is read: lowered, then trimmed.
pub open spec fn wish_text(value: Seq<char>) -> Seq<char> {
    trimmed(lowercase(value))
}

/// Whether a setting turns the device off.
pub open spec fn turns_off(text: Seq<char>) -> bool {
    text == "off"@ || text == "0"@ || text == "no"@ || text == "cpu"@ || text == "false"@
}

/// Whether a setting asks for the best device.
pub open spec fn asks_for_best(text: Seq<char>) -> bool {
    text.len() == 0 || text == "auto"@ || text == "1"@ || text == "yes"@ || text == "true"@
        || text == "on"@
}

/// Reads the override. An unset override reads as the empty setting, which asks for the best.
pub fn device_wish(value: &str) -> (out: DeviceWish)
    ensures
        match out {
            DeviceWish::Off => turns_off(wish_text(value@)),
            DeviceWish::Best => !turns_off(wish_text(value@)) && asks_for_best(wish_text(value@)),
            DeviceWish::Named(text) => !turns_off(wish_text(value@)) && !asks_for_best(
                wish_text(value@),
            ) && text@ == wish_text(value@),
        },
{
    let lowered = lowercase_of(value);
    let chars = chars_of(lowered.as_str());
    let (a, b) = trim_bounds(&chars, 0, chars.len());
    assert(chars@.subrange(0, chars@.len() as int) =~= chars@);
    let text = string_from(&chars, a, b);
    let t = text.as_str();
    if same_text(t, "off") || same_text(t, "0") || same_text(t, "no") || same_text(t, "cpu")
        || same_text(t, "false") {
        return DeviceWish::Off;
    }
    if a == b || same_text(t, "auto") || same_text(t, "1") || same_text(t, "yes") || same_text(
        t,
        "true",
    ) || same_text(t, "on") {
        return DeviceWish::Best;
    }
    DeviceWish::Named(text)
}

/// `off`, `0`, `no`, `cpu` and `false` keep the grind off the device, whatever their case (the
/// override is read lowered) and whatever white space stands around them: of the answers
/// [`device_wish`] may give, only `Off` fits such a setting.
pub proof fn law_off_words_keep_to_the_processor(
    value: Seq<char>,
    pre: Seq<char>,
    word: Seq<char>,
    post: Seq<char>,
)
    requires
        lowercase(value) == pre + word + post,
        forall|i: int| 0 <= i < pre.len() ==> is_space(#[trigger] pre[i]),
        forall|i: int| 0 <= i < post.len() ==> is_space(#[trigger] post[i]),
        word == "off"@ || word == "0"@ || word == "no"@ || word == "cpu"@ || word == "false"@,
    ensures
        turns_off(wish_text(value)),
        forall|out: DeviceWish|
            (match out {
                DeviceWish::Off => turns_off(wish_text(value)),
                DeviceWish::Best => !turns_off(wish_text(value)) && asks_for_best(wish_text(value)),
                DeviceWish::Named(text) => !turns_off(wish_text(value)) && !asks_for_best(
                    wish_text(value),
                ) && text@ == wish_text(value),
            }) ==> #[trigger] (out is Off),
{
    reveal_strlit("off");
    reveal_strlit("0");
    reveal_strlit("no");
    reveal_strlit("cpu");
    reveal_strlit("false");
    lemma_trim_padding(pre, word, post);
}

/// `auto`, `1`, `yes`, `true` and `on`, whatever their case and the white space around them,
/// and a setting that is nothing but white space, ask for the best device: of the answers
/// [`device_wish`] may give, only `Best` fits such a setting.
pub proof fn law_best_words_ask_for_the_best(
    value: Seq<char>,
    pre: Seq<char>,
    word: Seq<char>,
    post: Seq<char>,
)
    requires
        lowercase(value) == pre + word + post,
        forall|i: int| 0 <= i < pre.len() ==> is_space(#[trigger] pre[i]),
        forall|i: int| 0 <= i < post.len() ==> is_space(#[trigger] post[i]),
        word == "auto"@ || word == "1"@ || word == "yes"@ || word == "true"@ || word == "on"@
            || word.len() == 0,
    ensures
        !turns_off(wish_text(value)) && asks_for_best(wish_text(value)),
        forall|out: DeviceWish|
            (match out {
                DeviceWish::Off => turns_off(wish_text(value)),
                DeviceWish::Best => !turns_off(wish_text(value)) && asks_for_best(wish_text(value)),
                DeviceWish::Named(text) => !turns_off(wish_text(value)) && !asks_for_best(
                    wish_text(value),
                ) && text@ == wish_text(value),
            }) ==> #[trigger] (out is Best),
{
    reveal_strlit("off");
    reveal_strlit("0");
    reveal_strlit("no");
    reveal_strlit("cpu");
    reveal_strlit("false");
    reveal_strlit("auto");
    reveal_strlit("1");
    reveal_strlit("yes");
    reveal_strlit("true");
    reveal_strlit("on");
    if word.len() == 0 {
        lemma_trim_blank(pre + word + post);
    } else {
        lemma_trim_padding(pre, word, post);
    }
    let w = wish_text(value);
    if word.len() > 0 {
        assert(w == word);
        assert(w.len() == word.len() && w[0] == word[0]);
        assert("off"@.len() == 3 && "off"@[0] == 'o');
        assert("0"@.len() == 1 && "0"@[0] == '0');
        assert("no"@.len() == 2 && "no"@[0] == 'n');
        assert("cpu"@.len() == 3 && "cpu"@[0] == 'c');
        assert("false"@.len() == 5);
        if word == "auto"@ {
            assert(word.len() == 4);
        } else if word == "1"@ {
            assert(word[0] == '1');
        } else if word == "yes"@ {
            assert(word.len() == 3 && word[0] == 'y');
        } else if word == "true"@ {
            assert(word.len() == 4);
        } else {
            assert(word.len() == 2 && word[0] == 'o');
        }
    } else {
        assert(w.len() == 0);
    }
}

/// The complaint about a setting that names no device.
pub open spec fn no_such_device(text: Seq<char>, count: nat) -> Seq<char> {
    OVERRIDE@ + "="@ + text + " does not name a device; this machine has "@ + decimal_spec(count)
}

/// A device's number, written in decimal, picks that device when there is one by that number,
/// counting from zero: of the answers [`named_device`] may give, only `Ok` of that number fits.
/// A number past the last device fits only the complaint.
pub proof fn law_a_number_names_its_device(k: nat, count: usize)
    requires
        k <= usize::MAX,
    ensures
        forall|out: Result<usize, String>|
            (match out {
                Ok(n) => count_number(decimal_spec(k)) == Some(n) && n < count,
                Err(message) => !(count_number(decimal_spec(k)) matches Some(n) && n < count)
                    && message@ == no_such_device(decimal_spec(k), count as nat),
            }) ==> #[trigger] (out is Ok) == (k < count) && (out matches Ok(n) ==> n == k),
{
    law_counts_read_back(k);
}

/// A processor never outranks a graphics card of the same build, and more compute units or a
/// faster clock never rank lower.
pub proof fn law_more_device_ranks_higher(
    units: u32,
    more_units: u32,
    clock: u32,
    faster: u32,
    is_gpu: bool,
)
    requires
        units <= more_units,
        clock <= faster,
    ensures
        rank_spec(units, clock, false) < rank_spec(units, clock, true),
        rank_spec(units, clock, is_gpu) <= rank_spec(more_units, faster, is_gpu),
{
    let c = if clock < 1 { 1int } else { clock as int };
    let f = if faster < 1 { 1int } else { faster as int };
    assert(units as int * c <= more_units as int * f) by (nonlinear_arith)
        requires
            0 <= units <= more_units,
            1 <= c <= f,
    ;
}

/// Which of `count` devices a named setting picks: the one it numbers, counting from zero.
pub fn named_device(text: &str, count: usize) -> (out: Result<usize, String>)
    ensures
        match out {
            Ok(n) => count_number(text@) == Some(n) && n < count,
            Err(message) => !(count_number(text@) matches Some(n) && n < count) && message@
                == no_such_device(text@, count as nat),
        },
{
    match parse_count(text) {
        Some(n) => {
            if n < count {
                return Ok(n);
            }
        },
        None => {},
    }
    let mut message = String::new();
    message.append(OVERRIDE);
    message.append("=");
    message.append(text);
    message.append(" does not name a device; this machine has ");
    message.append(decimal(count as u64).as_str());
    Err(message)
}

/// Everything the machine has, as text: what the `gpuinfo` listing prints.
///
/// `found` is what looking gave: the loader could not be opened (`Err`, with why), or it could
/// and listing its devices failed (`Ok(Err)`, with why), or the one-line summaries of the usable
/// devices, best first.
pub fn report(found: Result<Result<Vec<String>, String>, String>) -> (out: String)
    ensures
        out@ == report_text(
            match found {
                Ok(Ok(lines)) => Ok(Ok(lines@.map_values(|line: String| line@))),
                Ok(Err(why)) => Ok(Err(why@)),
                Err(why) => Err(why@),
            },
        ),
{
    let mut out = String::new();
    match found {
        Err(why) => {
            out.append("no OpenCL: ");
            out.append(why.as_str());
            out.append("\n");
            out.append("\nThe grind runs on the CPU exactly as it always has. Nothing is broken.\n");
        },
        Ok(Err(why)) => {
            out.append("OpenCL loaded, but: ");
            out.append(why.as_str());
            out.append("\n");
        },
        Ok(Ok(lines)) => {
            out.append(decimal(lines.len() as u64).as_str());
            out.append(" usable device(s), best first:\n\n");
            let ghost head = out@;
            let ghost all = lines@.map_values(|line: String| line@);
            let mut i: usize = 0;
            while i < lines.len()
                invariant
                    i <= lines@.len(),
                    all == lines@.map_values(|line: String| line@),
                    out@ == head + listing(all.take(i as int)),
                decreases lines@.len() - i,
            {
                out.append("  ");
                out.append(lines[i].as_str());
                out.append("\n");
                proof {
                    assert(all.take(i + 1).drop_last() =~= all.take(i as int));
                }
                i = i + 1;
            }
            assert(all.take(lines@.len() as int) =~= all);
            out.append("\nThe grind would use [0]. Set ");
            out.append(OVERRIDE);
            out.append("=off to keep it on the CPU, or ");
            out.append(OVERRIDE);
            out.append("=N to pick another.\n");
        },
    }
    out
}

/// The device lines of a listing, each indented and on a line of its own.
pub open spec fn listing(lines: Seq<Seq<char>>) -> Seq<char>
    decreases lines.len(),
{
    if lines.len() == 0 {
        Seq::empty()
    } else {
        listing(lines.drop_last()) + "  "@ + lines.last() + "\n"@
    }
}

/// The text of the `gpuinfo` listing for what looking found.
pub open spec fn report_text(found: Result<Result<Seq<Seq<char>>, Seq<char>>, Seq<char>>) -> Seq<
    char,
> {
    match found {
        Err(why) => "no OpenCL: "@ + why + "\n"@
            + "\nThe grind runs on the CPU exactly as it always has. Nothing is broken.\n"@,
        Ok(Err(why)) => "OpenCL loaded, but: "@ + why + "\n"@,
        Ok(Ok(lines)) => decimal_spec(lines.len()) + " usable device(s), best first:\n\n"@
            + listing(lines) + "\nThe grind would use [0]. Set "@ + OVERRIDE@
            + "=off to keep it on the CPU, or "@ + OVERRIDE@ + "=N to pick another.\n"@,
    }
}

} // verus!
