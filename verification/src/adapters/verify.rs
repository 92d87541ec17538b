//! Checking, every batch, that the device still agrees with the processor.
//!
//! Naming a hit rebuilds and rehashes it on the processor, so no device can introduce a wrong
//! name. What that cannot do is notice a missing one: a hit the device never reported is a name
//! that is simply not there, and a pass that quietly finds fewer is indistinguishable from a pass
//! over ground that had less in it. So a sample of every batch is re-swept here, and the two
//! answers must match exactly.
//!
//! The sample is several windows spread across the whole stem list rather than one block at the
//! front: the worst bug of this kind is per-launch, a launch-relative index used where an
//! absolute one was meant, which leaves a first launch entirely right and every later one wrong.
//!
//! A disagreement is fatal for the device, not for the run: it means what the kernel computes and
//! what the engine computes have come apart, so the device is put away and the pass finishes on
//! the processor.

use vstd::prelude::*;

use crate::adapters::cpu::{
    lemma_sweep_contains, opening_hits, reported, stem_hits, sweep_from, sweep_hits, Cpu,
};
use crate::ports::backend::{lemma_mark_parts, mark, Backend, Hit, SweepRequest, BARE_OPENING};
use crate::names::{lowercase, lowercase_of};
use crate::text::{
    chars_of, decimal, decimal_spec, is_space, lemma_trim_padding, same_text, string_from, trim_bounds,
    trimmed,
};

verus! {

/// The setting that chooses how much of each batch is checked.
///
/// - unset, or `sample`: several windows per batch, a few milliseconds
/// - `all`: every stem, every batch
/// - `off`: for somebody who has measured their own device and wants the last few percent
pub const VERIFY: &'static str = "SLASHER_GPU_VERIFY";

/// How many windows the sample is spread over.
pub const WINDOWS: usize = 8;

/// How many stems each window holds.
pub const WINDOW: usize = 512;

/// What a check concluded.
pub enum Verdict {
    /// The two agreed on everything sampled.
    Agreed,
    /// They did not. Carries what to tell somebody, already worded.
    Disagreed(String),
    /// Nothing was compared, because the caller asked for none.
    Skipped,
}

/// Whether verification is wanted, and how much of it.
pub enum Wanted {
    Nothing,
    Sample,
    Everything,
}

/// What a setting asks for, once lowered and trimmed.
pub open spec fn wanted_spec(setting: Seq<char>) -> Wanted {
    let word = trimmed(lowercase(setting));
    if word == "off"@ || word == "0"@ || word == "no"@ || word == "false"@ {
        Wanted::Nothing
    } else if word == "all"@ || word == "every"@ || word == "full"@ {
        Wanted::Everything
    } else {
        Wanted::Sample
    }
}

/// Reads the setting: `off`, `0`, `no` or `false` turn checking off; `all`, `every` or `full`
/// check every stem; anything else, unset included, samples.
pub fn wanted_from(setting: &str) -> (out: Wanted)
    ensures
        out == wanted_spec(setting@),
{
    let lowered = lowercase_of(setting);
    let chars = chars_of(lowered.as_str());
    let (start, end) = trim_bounds(&chars, 0, chars.len());
    assert(chars@.subrange(0, chars@.len() as int) =~= chars@);
    let word = string_from(&chars, start, end);
    let w = word.as_str();
    if same_text(w, "off") || same_text(w, "0") || same_text(w, "no") || same_text(w, "false") {
        Wanted::Nothing
    } else if same_text(w, "all") || same_text(w, "every") || same_text(w, "full") {
        Wanted::Everything
    } else {
        Wanted::Sample
    }
}

/// `off`, `0`, `no` and `false` turn checking off, whatever their case (they are read lowered)
/// and whatever white space stands around them; `all`, `every` and `full` check everything.
pub proof fn law_the_setting_words(setting: Seq<char>, pre: Seq<char>, word: Seq<char>, post: Seq<char>)
    requires
        lowercase(setting) == pre + word + post,
        forall|i: int| 0 <= i < pre.len() ==> is_space(#[trigger] pre[i]),
        forall|i: int| 0 <= i < post.len() ==> is_space(#[trigger] post[i]),
    ensures
        word == "off"@ || word == "0"@ || word == "no"@ || word == "false"@ ==> wanted_spec(setting)
            == Wanted::Nothing,
        word == "all"@ || word == "every"@ || word == "full"@ ==> wanted_spec(setting)
            == Wanted::Everything,
{
    reveal_strlit("off");
    reveal_strlit("0");
    reveal_strlit("no");
    reveal_strlit("false");
    reveal_strlit("all");
    reveal_strlit("every");
    reveal_strlit("full");
    if word == "off"@ || word == "0"@ || word == "no"@ || word == "false"@ || word == "all"@
        || word == "every"@ || word == "full"@ {
        lemma_trim_padding(pre, word, post);
    }
}

/// A hit's stem index: its high half.
pub open spec fn stem_index(hit: u64) -> u32 {
    (hit >> 32u64) as u32
}

/// Where the processor emits a hit, as one number: by stem, and within a stem the bare stem
/// first and then each beginning in turn.
pub open spec fn emitted_rank(hit: u64) -> int {
    let low = hit & 0xFFFF_FFFFu64;
    (hit >> 32u64) * 0x1_0000_0000int + if low == 0xFFFF_FFFFu64 {
        0int
    } else {
        low + 1
    }
}

/// Where the first of the windows `w` starts, for a batch of `total` stems: spread so the last
/// window ends at the end of the batch rather than short of it.
pub open spec fn window_start(total: int, w: int) -> int {
    (total - WINDOW) * w / ((WINDOWS - 1) as int)
}

/// The stems a sample checks, in order: all of them when there are few, otherwise the windows.
pub open spec fn sample_spec(total: int) -> Seq<u32> {
    if total <= (WINDOWS * WINDOW) as int {
        Seq::new(total as nat, |i: int| i as u32)
    } else {
        Seq::new(
            (WINDOWS * WINDOW) as nat,
            |p: int| (window_start(total, p / (WINDOW as int)) + p % (WINDOW as int)) as u32,
        )
    }
}

/// The stems a check compares, for what was asked and a batch of `total` stems.
pub open spec fn picked_spec(wanted: Wanted, total: int) -> Seq<u32> {
    match wanted {
        Wanted::Nothing => Seq::empty(),
        Wanted::Everything => Seq::new(total as nat, |i: int| i as u32),
        Wanted::Sample => sample_spec(total),
    }
}

/// The device's hits on the picked stems, in the order the device gave them.
pub open spec fn kept(hits: Seq<u64>, picked: Seq<u32>) -> Seq<u64> {
    hits.filter(|hit: u64| picked.contains(stem_index(hit)))
}

/// The processor's hits on the first `n` picked stems, stem by stem in the order they were
/// picked.
pub open spec fn sample_hits(request: &SweepRequest, picked: Seq<u32>, n: int) -> Seq<u64>
    decreases n,
{
    if n <= 0 {
        Seq::empty()
    } else {
        sample_hits(request, picked, n - 1) + stem_hits(request, picked[n - 1] as int)
    }
}

/// The processor's hits on the first `n` stems, taken stem by stem as a sample would, are its
/// sweep of those stems.
proof fn lemma_every_stem_is_the_sweep(request: &SweepRequest, n: int)
    requires
        request.wf(),
        0 <= n <= request.stems.count(),
    ensures
        sample_hits(request, Seq::new(request.stems.count() as nat, |i: int| i as u32), n)
            == sweep_from(request, 0, n),
    decreases n,
{
    if n > 0 {
        lemma_every_stem_is_the_sweep(request, n - 1);
        let all = Seq::new(request.stems.count() as nat, |i: int| i as u32);
        assert(all[n - 1] as int == n - 1);
    }
}

/// Checking every stem holds a device to the processor's whole sweep: the processor's side of
/// the comparison is its sweep of the batch, and a device that reports exactly the processor's
/// hits, in whatever order, keeps them all and agrees.
pub proof fn law_checking_everything_is_the_whole_sweep(request: &SweepRequest, from_device: Seq<u64>)
    requires
        request.wf(),
        from_device.to_multiset() == sweep_hits(request, request.stems.count()).to_multiset(),
    ensures
        sample_hits(
            request,
            picked_spec(Wanted::Everything, request.stems.count()),
            picked_spec(Wanted::Everything, request.stems.count()).len() as int,
        ) == sweep_hits(request, request.stems.count()),
        kept(from_device, picked_spec(Wanted::Everything, request.stems.count())) == from_device,
{
    broadcast use vstd::seq_lib::group_to_multiset_ensures;

    let count = request.stems.count();
    let all = picked_spec(Wanted::Everything, count);
    lemma_every_stem_is_the_sweep(request, count);
    assert forall|k: int| 0 <= k < from_device.len() implies all.contains(
        stem_index(#[trigger] from_device[k]),
    ) by {
        let h = from_device[k];
        assert(from_device.to_multiset().count(h) > 0);
        assert(sweep_from(request, 0, count).contains(h));
        lemma_sweep_contains(request, 0, count, h);
        let (i, j) = choose|i: int, j: int| 0 <= i < count && reported(request, i, j) && h
            == #[trigger] mark(i, j);
        lemma_mark_parts(i as u64, j as u64);
        assert(stem_index(h) as int == i);
        assert(all[i] == i as u32);
    }
    assert(from_device.filter(|hit: u64| all.contains(stem_index(hit))) =~= from_device) by {
        lemma_filter_keeps_all(from_device, |hit: u64| all.contains(stem_index(hit)));
    }
}

/// Keeping what every item passes keeps everything.
proof fn lemma_filter_keeps_all(s: Seq<u64>, pred: spec_fn(u64) -> bool)
    requires
        forall|k: int| 0 <= k < s.len() ==> pred(#[trigger] s[k]),
    ensures
        s.filter(pred) == s,
    decreases s.len(),
{
    broadcast use vstd::seq_lib::group_filter_ensures;

    if s.len() > 0 {
        lemma_filter_keeps_all(s.drop_last(), pred);
        assert(s =~= s.drop_last().push(s.last()));
        s.drop_last().lemma_filter_push(s.last(), pred);
    } else {
        assert(s.filter(pred) =~= s);
    }
}

/// Whether a device's hits pass the check `wanted` asks for: nothing was asked, or on every
/// sampled stem they are the processor's hits.
pub open spec fn passes_check(request: &SweepRequest, from_device: Seq<u64>, wanted: Wanted) -> bool {
    let picked = picked_spec(wanted, request.stems.count());
    picked.len() == 0 || kept(from_device, picked).to_multiset() == sample_hits(
        request,
        picked,
        picked.len() as int,
    ).to_multiset()
}

/// How many of `ours` the other list does not hold.
pub open spec fn missing_from(ours: Seq<u64>, theirs: Seq<u64>) -> nat {
    ours.filter(|hit: u64| !theirs.contains(hit)).len()
}

/// What a disagreement says.
pub open spec fn disagreement(sampled: nat, total: nat, missed: nat, invented: nat) -> Seq<char> {
    "the device and the processor disagree on "@ + decimal_spec(sampled) + " of "@ + decimal_spec(
        total,
    ) + " stems: "@ + decimal_spec(missed)
        + " name(s) the processor found that the device did not, and "@ + decimal_spec(invented)
        + " the device reported that the processor does not. This is not a device declining work -- it means the kernel and the engine have come apart, so every later batch would be wrong the same way and just as quietly. The device is not used again in this run; the pass continues on the processor. Please run `gpuinfo` and send what it writes."@
}

/// A hit moved from a subset's numbering back to the batch's.
pub open spec fn renumbered(hit: u64, picked: Seq<u32>) -> u64 {
    ((picked[stem_index(hit) as int] as u64) << 32u64) | (hit & 0xFFFF_FFFFu64)
}

/// Whether two requests ask the same question of stems that correspond through `picked`.
pub open spec fn same_question(small: &SweepRequest, whole: &SweepRequest, picked: Seq<u32>) -> bool {
    &&& small.wf()
    &&& whole.wf()
    &&& small.openings@ == whole.openings@
    &&& small.bare == whole.bare
    &&& small.peeled == whole.peeled
    &&& small.stems.count() == picked.len()
    &&& forall|i: int|
        0 <= i < picked.len() ==> (#[trigger] picked[i] as int) < whole.stems.count()
            && small.stems.stem(i) == whole.stems.stem(picked[i] as int)
}

/// A mark made in the subset's numbering lands, renumbered, on the batch's stem.
proof fn lemma_renumbered_mark(i: int, k: int, picked: Seq<u32>)
    requires
        0 <= i < picked.len(),
        picked.len() <= 0xFFFF_FFFF,
        0 <= k <= 0xFFFF_FFFF,
    ensures
        renumbered(mark(i, k), picked) == mark(picked[i] as int, k),
{
    lemma_mark_parts(i as u64, k as u64);
}

/// The beginnings' hits, renumbered, are the batch's own.
proof fn lemma_opening_hits_renumbered(
    small: &SweepRequest,
    whole: &SweepRequest,
    picked: Seq<u32>,
    i: int,
    n: int,
)
    requires
        same_question(small, whole, picked),
        0 <= i < picked.len(),
        0 <= n <= small.openings@.len(),
    ensures
        opening_hits(small, i, n).map_values(|hit: u64| renumbered(hit, picked)) == opening_hits(
            whole,
            picked[i] as int,
            n,
        ),
    decreases n,
{
    if n > 0 {
        lemma_opening_hits_renumbered(small, whole, picked, i, n - 1);
        lemma_renumbered_mark(i, n - 1, picked);
        let f = |hit: u64| renumbered(hit, picked);
        let a = opening_hits(small, i, n - 1);
        let b = if small.peeled.admits(
            crate::adapters::cpu::plain_fold(small.openings@[n - 1], small.stems.stem(i)),
        ) {
            seq![mark(i, n - 1)]
        } else {
            Seq::<Hit>::empty()
        };
        assert((a + b).map_values(f) =~= a.map_values(f) + b.map_values(f));
        assert(opening_hits(small, i, n) == a + b);
    }
}

/// A stem's hits, renumbered, are the batch's own for the stem it came from.
proof fn lemma_stem_hits_renumbered(
    small: &SweepRequest,
    whole: &SweepRequest,
    picked: Seq<u32>,
    i: int,
)
    requires
        same_question(small, whole, picked),
        0 <= i < picked.len(),
    ensures
        stem_hits(small, i).map_values(|hit: u64| renumbered(hit, picked)) == stem_hits(
            whole,
            picked[i] as int,
        ),
{
    let f = |hit: u64| renumbered(hit, picked);
    lemma_opening_hits_renumbered(small, whole, picked, i, small.openings@.len() as int);
    lemma_renumbered_mark(i, BARE_OPENING as int, picked);
    let a = if small.bare && small.peeled.admits(
        crate::adapters::cpu::plain_fold(crate::BASIS, small.stems.stem(i)),
    ) {
        seq![mark(i, BARE_OPENING as int)]
    } else {
        Seq::<Hit>::empty()
    };
    let b = opening_hits(small, i, small.openings@.len() as int);
    assert((a + b).map_values(f) =~= a.map_values(f) + b.map_values(f));
}

/// A sweep of the subset, renumbered, is the batch's hits on the picked stems.
proof fn lemma_sweep_renumbered(small: &SweepRequest, whole: &SweepRequest, picked: Seq<u32>, n: int)
    requires
        same_question(small, whole, picked),
        0 <= n <= picked.len(),
    ensures
        sweep_from(small, 0, n).map_values(|hit: u64| renumbered(hit, picked)) == sample_hits(
            whole,
            picked,
            n,
        ),
    decreases n,
{
    if n > 0 {
        lemma_sweep_renumbered(small, whole, picked, n - 1);
        lemma_stem_hits_renumbered(small, whole, picked, n - 1);
        let f = |hit: u64| renumbered(hit, picked);
        let a = sweep_from(small, 0, n - 1);
        let b = stem_hits(small, n - 1);
        assert((a + b).map_values(f) =~= a.map_values(f) + b.map_values(f));
    } else {
        assert(sweep_from(small, 0, n).map_values(|hit: u64| renumbered(hit, picked)) =~= Seq::<
            u64,
        >::empty());
    }
}

/// The rank is a different number for every hit, so ordering by it loses nothing.
proof fn lemma_rank_injective(a: u64, b: u64)
    requires
        emitted_rank(a) == emitted_rank(b),
    ensures
        a == b,
{
    let ha = a >> 32u64;
    let hb = b >> 32u64;
    let la = a & 0xFFFF_FFFFu64;
    let lb = b & 0xFFFF_FFFFu64;
    assert(ha <= 0xFFFF_FFFF && hb <= 0xFFFF_FFFF && la <= 0xFFFF_FFFF && lb <= 0xFFFF_FFFF)
        by (bit_vector)
        requires
            ha == a >> 32u64,
            hb == b >> 32u64,
            la == a & 0xFFFF_FFFFu64,
            lb == b & 0xFFFF_FFFFu64,
    ;
    let xa: int = if la == 0xFFFF_FFFFu64 {
        0
    } else {
        la + 1
    };
    let xb: int = if lb == 0xFFFF_FFFFu64 {
        0
    } else {
        lb + 1
    };
    assert(ha == hb && xa == xb) by (nonlinear_arith)
        requires
            ha * 0x1_0000_0000int + xa == hb * 0x1_0000_0000int + xb,
            0 <= xa < 0x1_0000_0000int,
            0 <= xb < 0x1_0000_0000int,
            0 <= ha,
            0 <= hb,
    ;
    assert(la == lb);
    assert(a == ((ha << 32u64) | la) && b == ((hb << 32u64) | lb)) by (bit_vector)
        requires
            ha == a >> 32u64,
            hb == b >> 32u64,
            la == a & 0xFFFF_FFFFu64,
            lb == b & 0xFFFF_FFFFu64,
    ;
}

/// Ascending lists of ranks with the same entries are the same list.
proof fn lemma_ascending_unique(x: Seq<u64>, y: Seq<u64>)
    requires
        crate::ports::backend::ascending(x),
        crate::ports::backend::ascending(y),
        x.to_multiset() == y.to_multiset(),
    ensures
        x == y,
{
    let leq = |a: u64, b: u64| a <= b;
    assert(vstd::relations::sorted_by(x, leq));
    assert(vstd::relations::sorted_by(y, leq));
    assert(vstd::relations::total_ordering(leq));
    vstd::seq_lib::lemma_sorted_unique(x, y, leq);
}

/// Mapping by a one-to-one function keeps whether two lists hold the same entries.
proof fn lemma_multiset_of_ranks(x: Seq<u64>, y: Seq<u64>)
    ensures
        x.map_values(|h: u64| emitted_rank(h) as u64).to_multiset() == y.map_values(
            |h: u64| emitted_rank(h) as u64,
        ).to_multiset() <==> x.to_multiset() == y.to_multiset(),
{
    broadcast use vstd::seq_lib::group_to_multiset_ensures;
    broadcast use vstd::multiset::group_multiset_axioms;

    let f = |h: u64| emitted_rank(h) as u64;
    assert forall|h: u64| 0 <= #[trigger] emitted_rank(h) <= u64::MAX by {
        let low = h & 0xFFFF_FFFFu64;
        let high = h >> 32u64;
        assert(high <= 0xFFFF_FFFF && low <= 0xFFFF_FFFF) by (bit_vector)
            requires
                high == h >> 32u64,
                low == h & 0xFFFF_FFFFu64,
        ;
        let x: int = if low == 0xFFFF_FFFFu64 {
            0
        } else {
            low + 1
        };
        assert(0 <= high * 0x1_0000_0000int + x <= u64::MAX) by (nonlinear_arith)
            requires
                0 <= high <= 0xFFFF_FFFF,
                0 <= x <= 0xFFFF_FFFF,
        ;
    }
    assert forall|a: u64, b: u64| #[trigger] f(a) == #[trigger] f(b) implies a == b by {
        assert(emitted_rank(a) == emitted_rank(b));
        lemma_rank_injective(a, b);
    }
    lemma_count_mapped(x, f);
    lemma_count_mapped(y, f);
    if x.to_multiset() == y.to_multiset() {
        assert forall|r: u64| #[trigger] x.map_values(f).to_multiset().count(r)
            == y.map_values(f).to_multiset().count(r) by {
            lemma_count_image(x, f, r);
            lemma_count_image(y, f, r);
        }
        assert(x.map_values(f).to_multiset() =~= y.map_values(f).to_multiset());
    }
    if x.map_values(f).to_multiset() == y.map_values(f).to_multiset() {
        assert forall|h: u64| #[trigger] x.to_multiset().count(h) == y.to_multiset().count(h) by {
            assert(x.map_values(f).to_multiset().count(f(h)) == y.map_values(f).to_multiset().count(
                f(h),
            ));
        }
        assert(x.to_multiset() =~= y.to_multiset());
    }
}

/// How often a one-to-one function's value appears in a mapped list is how often its argument
/// appeared in the list.
proof fn lemma_count_mapped(x: Seq<u64>, f: spec_fn(u64) -> u64)
    requires
        forall|a: u64, b: u64| #[trigger] f(a) == #[trigger] f(b) ==> a == b,
    ensures
        forall|h: u64| #[trigger] x.map_values(f).to_multiset().count(f(h)) == x.to_multiset().count(h),
    decreases x.len(),
{
    broadcast use vstd::seq_lib::group_to_multiset_ensures;
    broadcast use vstd::multiset::group_multiset_axioms;

    if x.len() > 0 {
        let rest = x.drop_last();
        lemma_count_mapped(rest, f);
        assert(x =~= rest.push(x.last()));
        assert(x.map_values(f) =~= rest.map_values(f).push(f(x.last())));
    } else {
        assert(x.map_values(f) =~= Seq::<u64>::empty());
    }
}

/// A value no argument maps to does not appear in the mapped list, and one that does appears as
/// often as its argument did.
proof fn lemma_count_image(x: Seq<u64>, f: spec_fn(u64) -> u64, r: u64)
    requires
        forall|a: u64, b: u64| #[trigger] f(a) == #[trigger] f(b) ==> a == b,
    ensures
        (exists|h: u64| #[trigger] f(h) == r) ==> x.map_values(f).to_multiset().count(r)
            == x.to_multiset().count(choose|h: u64| #[trigger] f(h) == r),
        !(exists|h: u64| #[trigger] f(h) == r) ==> x.map_values(f).to_multiset().count(r) == 0,
    decreases x.len(),
{
    broadcast use vstd::seq_lib::group_to_multiset_ensures;
    broadcast use vstd::multiset::group_multiset_axioms;

    lemma_count_mapped(x, f);
    if !(exists|h: u64| #[trigger] f(h) == r) {
        if x.map_values(f).to_multiset().count(r) > 0 {
            assert(x.map_values(f).contains(r));
            let p = choose|p: int| 0 <= p < x.map_values(f).len() && x.map_values(f)[p] == r;
            assert(f(x[p]) == r);
        }
    }
}

/// Whether a sorted list of stem indices holds `value`, by binary search.
fn holds_stem(list: &Vec<u32>, value: u32) -> (found: bool)
    requires
        forall|i: int, j: int| 0 <= i < j < list@.len() ==> list@[i] < list@[j],
    ensures
        found == list@.contains(value),
{
    let mut low: usize = 0;
    let mut high: usize = list.len();
    while low < high
        invariant
            low <= high <= list@.len(),
            forall|i: int, j: int| 0 <= i < j < list@.len() ==> list@[i] < list@[j],
            forall|i: int| 0 <= i < low ==> #[trigger] list@[i] < value,
            forall|i: int| high <= i < list@.len() ==> #[trigger] list@[i] > value,
        decreases high - low,
    {
        let middle = low + (high - low) / 2;
        let here = list[middle];
        if here == value {
            assert(list@[middle as int] == value);
            return true;
        } else if here < value {
            low = middle + 1;
        } else {
            high = middle;
        }
    }
    proof {
        if list@.contains(value) {
            let i = choose|i: int| 0 <= i < list@.len() && list@[i] == value;
            assert(list@[i] == value);
        }
    }
    false
}

/// Where the processor emits a hit: its stem, then `0` for the bare stem and one more than the
/// beginning's index otherwise.
///
/// Not a plain ascending sort on the mark: `BARE_OPENING` is the largest beginning index there
/// can be, and the processor tries the bare stem first, so sorting on the mark would put the bare
/// hit last for its stem and every comparison would fail on batches that had one.
pub fn emitted(hit: Hit) -> (out: (u32, u32))
    ensures
        out.0 == stem_index(hit),
        out.0 as int * 0x1_0000_0000int + out.1 as int == emitted_rank(hit),
        out.1 == if hit & 0xFFFF_FFFFu64 == 0xFFFF_FFFFu64 {
            0
        } else {
            (hit & 0xFFFF_FFFFu64) + 1
        },
{
    let low = hit & 0xFFFF_FFFF;
    let high = hit >> 32;
    proof {
        assert(high <= 0xFFFF_FFFF && low <= 0xFFFF_FFFF) by (bit_vector)
            requires
                high == hit >> 32u64,
                low == hit & 0xFFFF_FFFFu64,
        ;
    }
    let opening = low as u32;
    (high as u32, if opening == u32::MAX { 0 } else { opening + 1 })
}

/// A hit's stem index.
pub fn stem_of(hit: Hit) -> (out: u32)
    ensures
        out == stem_index(hit),
{
    proof {
        assert(hit >> 32u64 <= 0xFFFF_FFFF) by (bit_vector);
    }
    (hit >> 32) as u32
}

/// The emitted order as one sortable number.
fn rank_of(hit: Hit) -> (out: u64)
    ensures
        out as int == emitted_rank(hit),
{
    let (stem, place) = emitted(hit);
    proof {
        assert(stem as int * 0x1_0000_0000int + place as int <= u64::MAX) by (nonlinear_arith)
            requires
                stem <= 0xFFFF_FFFF,
                place <= 0xFFFF_FFFF,
        ;
    }
    stem as u64 * 0x1_0000_0000 + place as u64
}

/// Windows spread evenly across the batch, as sorted stem indices.
///
/// Few enough stems are all taken. Otherwise each window is `WINDOW` stems long and they are
/// spread so the last ends exactly at the end of the batch: the final launch is exactly where a
/// launch-relative index goes wrong.
pub fn scatter(total: usize) -> (picked: Vec<u32>)
    requires
        total <= u32::MAX,
    ensures
        picked@ == sample_spec(total as int),
        forall|i: int, j: int| 0 <= i < j < picked@.len() ==> picked@[i] < picked@[j],
        total > 0 ==> picked@[0] == 0 && picked@.last() == total - 1,
        picked@.len() >= if total < WINDOW { total as int } else { WINDOW as int },
{
    let mut picked: Vec<u32> = Vec::new();
    if total <= WINDOWS * WINDOW {
        let mut i: usize = 0;
        while i < total
            invariant
                i <= total <= WINDOWS * WINDOW,
                picked@ == Seq::new(i as nat, |k: int| k as u32),
            decreases total - i,
        {
            picked.push(i as u32);
            assert(picked@ =~= Seq::new((i + 1) as nat, |k: int| k as u32));
            i = i + 1;
        }
        assert(picked@ =~= sample_spec(total as int));
        return picked;
    }
    let spread = (total - WINDOW) as u64;
    let mut window: usize = 0;
    while window < WINDOWS
        invariant
            WINDOWS * WINDOW < total <= u32::MAX,
            spread == total - WINDOW,
            window <= WINDOWS,
            picked@.len() == window * WINDOW,
            forall|p: int|
                0 <= p < picked@.len() ==> #[trigger] picked@[p] == sample_spec(total as int)[p],
            forall|i: int, j: int| 0 <= i < j < picked@.len() ==> picked@[i] < picked@[j],
            window > 0 ==> picked@.last() == window_start(total as int, window - 1) + WINDOW - 1,
        decreases WINDOWS - window,
    {
        proof {
            assert(spread * window <= 8 * 0xFFFF_FFFFu64) by (nonlinear_arith)
                requires
                    spread <= 0xFFFF_FFFFu64,
                    window < 8,
            ;
        }
        let start = (spread * (window as u64) / ((WINDOWS - 1) as u64)) as usize;
        proof {
            lemma_window_bounds(total as int, window as int);
            if window > 0 {
                lemma_windows_apart(total as int, window - 1);
            }
        }
        let mut k: usize = 0;
        while k < WINDOW
            invariant
                WINDOWS * WINDOW < total <= u32::MAX,
                window < WINDOWS,
                start == window_start(total as int, window as int),
                start + WINDOW <= total,
                k <= WINDOW,
                picked@.len() == window * WINDOW + k,
                forall|p: int|
                    0 <= p < picked@.len() ==> #[trigger] picked@[p] == sample_spec(total as int)[p],
                forall|i: int, j: int| 0 <= i < j < picked@.len() ==> picked@[i] < picked@[j],
                picked@.len() > 0 ==> picked@.last() < start + k || (k == 0 && window == 0),
                k > 0 ==> picked@.last() == start + k - 1,
                window > 0 && k == 0 ==> picked@.last() + 1 <= start,
            decreases WINDOW - k,
        {
            let stem = (start + k) as u32;
            proof {
                let p = window * WINDOW + k;
                assert(p / (WINDOW as int) == window as int && p % (WINDOW as int) == k as int)
                    by (nonlinear_arith)
                    requires
                        p == window * 512 + k,
                        0 <= k < 512,
                        window >= 0,
                ;
            }
            picked.push(stem);
            k = k + 1;
        }
        window = window + 1;
    }
    proof {
        assert(picked@ =~= sample_spec(total as int));
        lemma_window_bounds(total as int, 0);
        lemma_window_bounds(total as int, (WINDOWS - 1) as int);
        assert(window_start(total as int, 0) == 0);
        assert(window_start(total as int, (WINDOWS - 1) as int) == total - WINDOW) by (nonlinear_arith)
            requires
                total >= 0,
        ;
    }
    picked
}

/// Every window starts inside the batch and ends by its end.
proof fn lemma_window_bounds(total: int, w: int)
    requires
        total > (WINDOWS * WINDOW) as int,
        0 <= w < WINDOWS as int,
    ensures
        0 <= window_start(total, w),
        window_start(total, w) + WINDOW <= total,
{
    assert(0 <= (total - 512) * w / 7 <= total - 512) by (nonlinear_arith)
        requires
            total > 4096,
            0 <= w < 8,
    ;
}

/// Consecutive windows do not overlap: the next starts after this one ends.
proof fn lemma_windows_apart(total: int, w: int)
    requires
        total > (WINDOWS * WINDOW) as int,
        0 <= w < (WINDOWS - 1) as int,
    ensures
        window_start(total, w) + WINDOW <= window_start(total, w + 1),
{
    let d = total - 512;
    assert(d * w / 7 + 512 <= d * (w + 1) / 7) by (nonlinear_arith)
        requires
            d > 3584,
            0 <= w,
    ;
}

/// Re-sweeps part of a batch on the processor and compares, exactly.
///
/// The device's hits on the picked stems and the processor's are compared as collections: the
/// device appends hits as its groups finish, which is not deterministic and does not need to be,
/// so both sides are put in the order the processor emits in and compared entry for entry.
pub fn check(request: &SweepRequest, from_device: &[Hit], cpu: &Cpu, wanted: Wanted) -> (verdict:
    Verdict)
    requires
        request.wf(),
    ensures
        picked_spec(wanted, request.stems.count()).len() == 0 <==> verdict is Skipped,
        verdict is Agreed <==> picked_spec(wanted, request.stems.count()).len() > 0 && kept(
            from_device@,
            picked_spec(wanted, request.stems.count()),
        ).to_multiset() == sample_hits(
            request,
            picked_spec(wanted, request.stems.count()),
            picked_spec(wanted, request.stems.count()).len() as int,
        ).to_multiset(),
        verdict matches Verdict::Disagreed(message) ==> message@ == disagreement(
            picked_spec(wanted, request.stems.count()).len(),
            request.stems.count() as nat,
            missing_from(
                sample_hits(
                    request,
                    picked_spec(wanted, request.stems.count()),
                    picked_spec(wanted, request.stems.count()).len() as int,
                ),
                kept(from_device@, picked_spec(wanted, request.stems.count())),
            ),
            missing_from(
                kept(from_device@, picked_spec(wanted, request.stems.count())),
                sample_hits(
                    request,
                    picked_spec(wanted, request.stems.count()),
                    picked_spec(wanted, request.stems.count()).len() as int,
                ),
            ),
        ),
{
    let total = request.stems.len();
    let ghost picked_all = picked_spec(wanted, total as int);
    let sampled: Vec<u32> = match wanted {
        Wanted::Nothing => {
            return Verdict::Skipped;
        },
        Wanted::Everything => {
            let mut all: Vec<u32> = Vec::new();
            let mut i: usize = 0;
            while i < total
                invariant
                    i <= total <= u32::MAX,
                    all@ == Seq::new(i as nat, |k: int| k as u32),
                decreases total - i,
            {
                all.push(i as u32);
                assert(all@ =~= Seq::new((i + 1) as nat, |k: int| k as u32));
                i = i + 1;
            }
            all
        },
        Wanted::Sample => scatter(total),
    };
    assert(sampled@ == picked_all);
    assert(forall|i: int, j: int| 0 <= i < j < sampled@.len() ==> sampled@[i] < sampled@[j]) by {
        if wanted is Sample {
        }
    }
    assert(forall|i: int| 0 <= i < sampled@.len() ==> (#[trigger] sampled@[i] as int) < total) by {
        if wanted is Sample && total > WINDOWS * WINDOW {
            assert forall|i: int| 0 <= i < sampled@.len() implies (#[trigger] sampled@[i] as int)
                < total by {
                assert(sampled@[i] <= sampled@.last());
            }
        }
    }
    if sampled.len() == 0 {
        return Verdict::Skipped;
    }
    let subset = request.stems.subset(sampled.as_slice());
    // The device's hits on the sampled stems, in the order it gave them.
    let mut theirs: Vec<Hit> = Vec::new();
    let mut i: usize = 0;
    while i < from_device.len()
        invariant
            i <= from_device@.len(),
            forall|a: int, b: int| 0 <= a < b < sampled@.len() ==> sampled@[a] < sampled@[b],
            theirs@ == kept(from_device@.take(i as int), sampled@),
        decreases from_device@.len() - i,
    {
        let hit = from_device[i];
        assert(from_device@.take(i + 1).drop_last() =~= from_device@.take(i as int));
        proof {
            reveal(Seq::filter);
        }
        if holds_stem(&sampled, stem_of(hit)) {
            theirs.push(hit);
        }
        i = i + 1;
    }
    assert(from_device@.take(from_device@.len() as int) =~= from_device@);
    let ask = SweepRequest {
        stems: &subset,
        openings: request.openings,
        bare: request.bare,
        peeled: request.peeled,
    };
    proof {
        assert(same_question(&ask, request, sampled@));
    }
    let found = match cpu.sweep(&ask) {
        Ok(found) => found,
        Err(_) => {
            return Verdict::Skipped;
        },
    };
    // The subset renumbered its stems from zero, so put the batch's own indices back before
    // anything is compared.
    let mut ours: Vec<Hit> = Vec::new();
    let mut j: usize = 0;
    while j < found.len()
        invariant
            j <= found@.len(),
            found@ == sweep_hits(&ask, ask.stems.count()),
            same_question(&ask, request, sampled@),
            ours@ == found@.take(j as int).map_values(|hit: u64| renumbered(hit, sampled@)),
        decreases found@.len() - j,
    {
        let hit = found[j];
        proof {
            crate::adapters::cpu::lemma_sweep_contains(&ask, 0, ask.stems.count(), hit);
            assert(found@.contains(hit));
            let (s, k) = choose|s: int, k: int|
                0 <= s < ask.stems.count() && crate::adapters::cpu::reported(&ask, s, k) && hit
                    == #[trigger] mark(s, k);
            lemma_mark_parts(s as u64, k as u64);
        }
        let inside = stem_of(hit) as usize;
        let moved = ((sampled[inside] as u64) << 32) | (hit & 0xFFFF_FFFF);
        ours.push(moved);
        assert(ours@ =~= found@.take(j + 1).map_values(|hit: u64| renumbered(hit, sampled@)));
        j = j + 1;
    }
    proof {
        assert(found@.take(found@.len() as int) =~= found@);
        lemma_sweep_renumbered(&ask, request, sampled@, sampled@.len() as int);
    }
    let ghost their_hits = theirs@;
    let ghost our_hits = ours@;
    // Both sides in the order the processor emits in. Ordering them into agreement would be how
    // a real disagreement gets hidden, so the key is that order and nothing looser.
    let mut their_ranks = ranks(&theirs);
    let mut our_ranks = ranks(&ours);
    let ghost their_rank_list = their_ranks@;
    let ghost our_rank_list = our_ranks@;
    crate::search::sort_hashes(&mut their_ranks);
    crate::search::sort_hashes(&mut our_ranks);
    proof {
        lemma_multiset_of_ranks(their_hits, our_hits);
    }
    if same_list(&their_ranks, &our_ranks) {
        return Verdict::Agreed;
    }
    proof {
        if their_hits.to_multiset() == our_hits.to_multiset() {
            lemma_ascending_unique(their_ranks@, our_ranks@);
        }
    }
    let missed = count_missing(&ours, &theirs);
    let invented = count_missing(&theirs, &ours);
    Verdict::Disagreed(disagreement_text(sampled.len(), total, missed, invented))
}

/// Each hit's place in the emitted order.
fn ranks(hits: &Vec<Hit>) -> (out: Vec<u64>)
    ensures
        out@ == hits@.map_values(|h: u64| emitted_rank(h) as u64),
{
    let mut out: Vec<u64> = Vec::new();
    let mut i: usize = 0;
    while i < hits.len()
        invariant
            i <= hits@.len(),
            out@ == hits@.take(i as int).map_values(|h: u64| emitted_rank(h) as u64),
        decreases hits@.len() - i,
    {
        out.push(rank_of(hits[i]));
        assert(out@ =~= hits@.take(i + 1).map_values(|h: u64| emitted_rank(h) as u64));
        i = i + 1;
    }
    assert(hits@.take(hits@.len() as int) =~= hits@);
    out
}

/// Whether two lists are the same, entry for entry.
fn same_list(a: &Vec<u64>, b: &Vec<u64>) -> (out: bool)
    ensures
        out == (a@ == b@),
{
    if a.len() != b.len() {
        return false;
    }
    let mut i: usize = 0;
    while i < a.len()
        invariant
            i <= a@.len() == b@.len(),
            forall|k: int| 0 <= k < i ==> a@[k] == b@[k],
        decreases a@.len() - i,
    {
        if a[i] != b[i] {
            return false;
        }
        i = i + 1;
    }
    assert(a@ =~= b@);
    true
}

/// Whether a list holds a hit.
fn holds_hit(list: &Vec<Hit>, hit: Hit) -> (out: bool)
    ensures
        out == list@.contains(hit),
{
    let mut i: usize = 0;
    while i < list.len()
        invariant
            i <= list@.len(),
            forall|k: int| 0 <= k < i ==> list@[k] != hit,
        decreases list@.len() - i,
    {
        if list[i] == hit {
            return true;
        }
        i = i + 1;
    }
    false
}

/// How many of `ours` the other list does not hold.
fn count_missing(ours: &Vec<Hit>, theirs: &Vec<Hit>) -> (out: usize)
    ensures
        out == missing_from(ours@, theirs@),
{
    let mut count: usize = 0;
    let mut i: usize = 0;
    while i < ours.len()
        invariant
            i <= ours@.len(),
            count == missing_from(ours@.take(i as int), theirs@),
            count <= i,
        decreases ours@.len() - i,
    {
        assert(ours@.take(i + 1).drop_last() =~= ours@.take(i as int));
        proof {
            reveal(Seq::filter);
        }
        if !holds_hit(theirs, ours[i]) {
            count = count + 1;
        }
        i = i + 1;
    }
    assert(ours@.take(ours@.len() as int) =~= ours@);
    count
}

/// The words of a disagreement.
fn disagreement_text(sampled: usize, total: usize, missed: usize, invented: usize) -> (out: String)
    ensures
        out@ == disagreement(sampled as nat, total as nat, missed as nat, invented as nat),
{
    let mut out = String::new();
    out.append("the device and the processor disagree on ");
    out.append(decimal(sampled as u64).as_str());
    out.append(" of ");
    out.append(decimal(total as u64).as_str());
    out.append(" stems: ");
    out.append(decimal(missed as u64).as_str());
    out.append(" name(s) the processor found that the device did not, and ");
    out.append(decimal(invented as u64).as_str());
    out.append(
        " the device reported that the processor does not. This is not a device declining work -- it means the kernel and the engine have come apart, so every later batch would be wrong the same way and just as quietly. The device is not used again in this run; the pass continues on the processor. Please run `gpuinfo` and send what it writes.",
    );
    assert(out@ =~= disagreement(sampled as nat, total as nat, missed as nat, invented as nat));
    out
}

/// Whether a device has been put away for the rest of this run.
///
/// A run-long latch and not a counter: once the two have come apart there is nothing to recover
/// to, and trying again would only produce another quiet batch.
pub struct Trust {
    broken: bool,
}

impl Trust {
    pub closed spec fn is_broken(&self) -> bool {
        self.broken
    }

    /// A device that has not yet been caught disagreeing.
    pub fn new() -> (trust: Self)
        ensures
            !trust.is_broken(),
    {
        Trust { broken: false }
    }

    pub fn broken(&self) -> (out: bool)
        ensures
            out == self.is_broken(),
    {
        self.broken
    }

    /// Puts the device away for good.
    pub fn break_it(&mut self)
        ensures
            final(self).is_broken(),
    {
        self.broken = true;
    }
}

impl Default for Trust {
    fn default() -> (trust: Self)
        ensures
            !trust.is_broken(),
    {
        Trust::new()
    }
}

} // verus!
