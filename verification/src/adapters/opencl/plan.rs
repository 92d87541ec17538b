//! How a device's sweep and peel are laid out: what is refused before anything is uploaded, how
//! an overflowing hit buffer is retried, which survivors of the bitmaps are hits, and how the
//! peel's rows are cut into pieces a device can hold.

use vstd::prelude::*;

use crate::adapters::cpu::sorted_contains;
use crate::ports::backend::{ascending, Hit};

verus! {

/// How many hits the first launch of a sweep makes room for.
pub const HITS: usize = 0x10_0000;

/// What to do with a piece of work before anything is uploaded.
pub enum Start {
    /// There is nothing to do: the answer is empty.
    Nothing,
    /// The kernel cannot index this much; the reason why.
    Decline(String),
    /// Go ahead.
    Go,
}

/// Whether a sweep of `stems` stems against a peeled set of `peeled` hashes goes ahead: nothing
/// to do when either is empty, and declined when either is past what a 32-bit index reaches.
pub fn sweep_start(stems: usize, peeled: usize) -> (out: Start)
    ensures
        match out {
            Start::Nothing => stems == 0 || peeled == 0,
            Start::Decline(why) => stems > 0 && peeled > 0 && (stems > u32::MAX || peeled
                > u32::MAX) && why@ == if stems > u32::MAX {
                "more stems than the kernel indexes"@
            } else {
                "peeled set larger than the kernel indexes"@
            },
            Start::Go => 0 < stems <= u32::MAX && 0 < peeled <= u32::MAX,
        },
{
    if stems == 0 || peeled == 0 {
        Start::Nothing
    } else if stems as u64 > 0xFFFF_FFFF {
        Start::Decline("more stems than the kernel indexes".to_owned())
    } else if peeled as u64 > 0xFFFF_FFFF {
        Start::Decline("peeled set larger than the kernel indexes".to_owned())
    } else {
        Start::Go
    }
}

/// Whether a peel of `spellings` ids against `rows` rows goes ahead: nothing to do when there is
/// nothing to produce, and declined when either count is past what a 32-bit index reaches.
pub fn peel_start(spellings: usize, rows: usize) -> (out: Start)
    ensures
        match out {
            Start::Nothing => spellings == 0 || rows == 0,
            Start::Decline(why) => spellings > 0 && rows > 0 && (spellings > u32::MAX || rows
                > u32::MAX) && why@ == "more to peel than the kernel indexes"@,
            Start::Go => 0 < spellings <= u32::MAX && 0 < rows <= u32::MAX,
        },
{
    if spellings == 0 || rows == 0 {
        Start::Nothing
    } else if spellings as u64 > 0xFFFF_FFFF || rows as u64 > 0xFFFF_FFFF {
        Start::Decline("more to peel than the kernel indexes".to_owned())
    } else {
        Start::Go
    }
}

/// What one launch of the forward sweep came back with.
pub enum Swept {
    Done(Vec<Hit>),
    /// More hits than the buffer held. Carries how many there really were.
    Overflowed(usize),
}

/// What to do after a launch.
pub enum SweepStep {
    /// The sweep is finished, with these hits.
    Finished(Vec<Hit>),
    /// Launch again with room for this many hits.
    Retry(usize),
    /// Stop trying; the reason why.
    GiveUp(String),
}

/// What follows a launch that had room for `room` hits.
///
/// The kernel counts every hit, including the ones it had nowhere to put, so a retry is sized
/// to exactly that count; a device that overflows a buffer already that large is given up on.
pub fn next_sweep(room: usize, swept: Swept) -> (out: SweepStep)
    ensures
        match swept {
            Swept::Done(hits) => out == SweepStep::Finished(hits),
            Swept::Overflowed(wanted) => if room >= wanted {
                out matches SweepStep::GiveUp(why) && why@
                    == "the device kept overflowing the hit buffer"@
            } else {
                out == SweepStep::Retry(wanted)
            },
        },
{
    match swept {
        Swept::Done(hits) => SweepStep::Finished(hits),
        Swept::Overflowed(wanted) => {
            if room >= wanted {
                SweepStep::GiveUp("the device kept overflowing the hit buffer".to_owned())
            } else {
                SweepStep::Retry(wanted)
            }
        },
    }
}

/// The marks whose hashes are in the peeled set, in order, out of the first `n` survivors.
pub open spec fn surviving(marks: Seq<u64>, hashes: Seq<u64>, peeled: Seq<u64>, n: int) -> Seq<u64>
    decreases n,
{
    if n <= 0 {
        Seq::empty()
    } else {
        surviving(marks, hashes, peeled, n - 1) + if peeled.contains(hashes[n - 1]) {
            seq![marks[n - 1]]
        } else {
            Seq::empty()
        }
    }
}

/// Narrowing keeps or drops each survivor on its own merits, the first included: none survive
/// none, and the survivors of a list are the first one when its hash is in the peeled set,
/// followed by the survivors of the rest. Read front to back, this fixes every position: mark
/// `i` is kept, in its place, exactly when hash `i` is in the peeled set.
pub proof fn law_each_survivor_on_its_merits(marks: Seq<u64>, hashes: Seq<u64>, peeled: Seq<u64>, n: int)
    requires
        marks.len() == hashes.len(),
        1 <= n <= marks.len(),
    ensures
        surviving(marks, hashes, peeled, 0) == Seq::<u64>::empty(),
        surviving(marks, hashes, peeled, n) == (if peeled.contains(hashes[0]) {
            seq![marks[0]]
        } else {
            Seq::<u64>::empty()
        }) + surviving(marks.skip(1), hashes.skip(1), peeled, n - 1),
    decreases n,
{
    let first = if peeled.contains(hashes[0]) {
        seq![marks[0]]
    } else {
        Seq::<u64>::empty()
    };
    if n == 1 {
        assert(surviving(marks.skip(1), hashes.skip(1), peeled, 0) == Seq::<u64>::empty());
        assert(surviving(marks, hashes, peeled, 0) == Seq::<u64>::empty());
        assert(surviving(marks, hashes, peeled, 1) =~= first);
        assert(first + Seq::<u64>::empty() =~= first);
    } else {
        law_each_survivor_on_its_merits(marks, hashes, peeled, n - 1);
        let last = if peeled.contains(hashes[n - 1]) {
            seq![marks[n - 1]]
        } else {
            Seq::<u64>::empty()
        };
        assert(hashes.skip(1)[n - 2] == hashes[n - 1]);
        assert(marks.skip(1)[n - 2] == marks[n - 1]);
        let rest = surviving(marks.skip(1), hashes.skip(1), peeled, n - 2);
        assert(surviving(marks.skip(1), hashes.skip(1), peeled, n - 1) == rest + last);
        assert(surviving(marks, hashes, peeled, n) == first + rest + last);
        assert(first + rest + last =~= first + (rest + last));
    }
}

/// What the bitmaps let through, narrowed to the hits: the marks, in order, whose hashes the
/// peeled set really holds.
pub fn survivors(marks: &[u64], hashes: &[u64], peeled: &[u64]) -> (out: Vec<Hit>)
    requires
        marks@.len() == hashes@.len(),
        ascending(peeled@),
    ensures
        out@ == surviving(marks@, hashes@, peeled@, marks@.len() as int),
{
    let mut out: Vec<Hit> = Vec::new();
    let mut i: usize = 0;
    while i < marks.len()
        invariant
            i <= marks@.len(),
            marks@.len() == hashes@.len(),
            ascending(peeled@),
            out@ == surviving(marks@, hashes@, peeled@, i as int),
        decreases marks@.len() - i,
    {
        if sorted_contains(peeled, hashes[i]) {
            out.push(marks[i]);
        }
        proof {
            assert(out@ =~= surviving(marks@, hashes@, peeled@, i + 1));
        }
        i = i + 1;
    }
    out
}

/// One piece of a peel: a run of whole rows, where row zero is the un-peeled spellings when
/// those were asked for and every other row is one ending.
pub struct PeelChunk {
    /// The first row of the piece.
    pub first_row: usize,
    /// How many rows it holds.
    pub rows: usize,
    /// Whether it holds row zero as the un-peeled spellings.
    pub no_ending: bool,
    /// The first ending it peels.
    pub first_ending: usize,
    /// How many endings it peels.
    pub endings: usize,
}

/// Whether `chunk`, starting at row `from`, is the piece of at most `at_once` rows out of `rows`
/// that a peel cuts there.
pub open spec fn chunk_at(chunk: PeelChunk, from: int, rows: int, at_once: int, no_ending: bool) -> bool {
    let taking = if rows - from < at_once {
        rows - from
    } else {
        at_once
    };
    &&& chunk.first_row == from
    &&& chunk.rows == taking
    &&& chunk.no_ending == (no_ending && from == 0)
    &&& chunk.first_ending == if no_ending && from > 0 {
        from - 1
    } else {
        from
    }
    &&& chunk.endings == taking - if chunk.no_ending {
        1int
    } else {
        0int
    }
}

/// The pieces of a peel, as [`peel_chunks`] promises them, take up the rows and the endings one
/// after another with nothing left out and nothing twice: the first starts at row zero and
/// ending zero, each next one starts where the one before it stopped, the last stops at the end,
/// and only the first holds the un-peeled spellings.
pub proof fn law_peel_pieces_follow_on(out: Seq<PeelChunk>, rows: int, at_once: int, no_ending: bool)
    requires
        at_once > 0,
        rows >= 0,
        out.len() == 0 <==> rows == 0,
        forall|i: int|
            0 <= i < out.len() ==> chunk_at(#[trigger] out[i], i * at_once, rows, at_once, no_ending),
        forall|i: int| 0 <= i < out.len() ==> 0 < #[trigger] out[i].rows <= at_once,
        out.len() > 0 ==> out.last().first_row + out.last().rows == rows,
    ensures
        out.len() > 0 ==> out[0].first_row == 0 && out[0].first_ending == 0,
        forall|i: int|
            0 <= i < out.len() - 1 ==> #[trigger] out[i + 1].first_row == out[i].first_row
                + out[i].rows && out[i + 1].first_ending == out[i].first_ending + out[i].endings,
        out.len() > 0 ==> out.last().first_ending + out.last().endings == rows - if no_ending {
            1int
        } else {
            0int
        },
        forall|i: int| 0 <= i < out.len() ==> (#[trigger] out[i]).no_ending == (no_ending && i == 0),
{
    assert forall|i: int| 0 <= i < out.len() - 1 implies #[trigger] out[i + 1].first_row
        == out[i].first_row + out[i].rows && out[i + 1].first_ending == out[i].first_ending
        + out[i].endings by {
        assert(chunk_at(out[i], i * at_once, rows, at_once, no_ending));
        assert(chunk_at(out[i + 1], (i + 1) * at_once, rows, at_once, no_ending));
        assert((i + 1) * at_once == i * at_once + at_once) by (nonlinear_arith);
        assert(i * at_once >= 0) by (nonlinear_arith)
            requires
                i >= 0,
                at_once > 0,
        ;
        assert(out[i + 1].rows > 0);
    }
    assert forall|i: int| 0 <= i < out.len() implies (#[trigger] out[i]).no_ending == (no_ending
        && i == 0) by {
        assert(chunk_at(out[i], i * at_once, rows, at_once, no_ending));
        if i > 0 {
            assert(i * at_once > 0) by (nonlinear_arith)
                requires
                    i > 0,
                    at_once > 0,
            ;
        }
    }
    if out.len() > 0 {
        let k = out.len() - 1;
        assert(chunk_at(out[k], k * at_once, rows, at_once, no_ending));
        assert(chunk_at(out[0], 0 * at_once, rows, at_once, no_ending));
        assert(k * at_once >= 0) by (nonlinear_arith)
            requires
                k >= 0,
                at_once > 0,
        ;
        if k > 0 {
            assert(k * at_once > 0) by (nonlinear_arith)
                requires
                    k > 0,
                    at_once > 0,
            ;
        }
    }
}

/// The pieces a peel of `rows` rows is cut into when a device holds `at_once` rows at a time:
/// whole rows, in order, each piece as many rows as fit and the last what is left, together
/// covering every row once. The un-peeled spellings, asked for by `no_ending`, are row zero and
/// belong to the first piece only.
pub fn peel_chunks(rows: usize, at_once: usize, no_ending: bool) -> (out: Vec<PeelChunk>)
    requires
        at_once > 0,
    ensures
        out@.len() == 0 <==> rows == 0,
        forall|i: int|
            0 <= i < out@.len() ==> chunk_at(
                #[trigger] out@[i],
                i * at_once,
                rows as int,
                at_once as int,
                no_ending,
            ),
        forall|i: int| 0 <= i < out@.len() ==> 0 < #[trigger] out@[i].rows <= at_once,
        out@.len() > 0 ==> out@.last().first_row + out@.last().rows == rows,
{
    let mut out: Vec<PeelChunk> = Vec::new();
    let mut done: usize = 0;
    assert(out@.len() * at_once == 0) by (nonlinear_arith)
        requires
            out@.len() == 0,
    ;
    while done < rows
        invariant
            at_once > 0,
            done <= rows,
            done == out@.len() * at_once || done == rows,
            done < rows ==> done == out@.len() * at_once,
            out@.len() == 0 <==> done == 0,
            forall|i: int|
                0 <= i < out@.len() ==> chunk_at(
                    #[trigger] out@[i],
                    i * at_once,
                    rows as int,
                    at_once as int,
                    no_ending,
                ),
            forall|i: int| 0 <= i < out@.len() ==> 0 < #[trigger] out@[i].rows <= at_once,
            out@.len() > 0 ==> out@.last().first_row + out@.last().rows == done,
        decreases rows - done,
    {
        let taking = if rows - done < at_once {
            rows - done
        } else {
            at_once
        };
        let here = no_ending && done == 0;
        let first_ending = if no_ending && done > 0 {
            done - 1
        } else {
            done
        };
        let endings = if here {
            taking - 1
        } else {
            taking
        };
        let ghost k = out@.len() as int;
        out.push(PeelChunk { first_row: done, rows: taking, no_ending: here, first_ending, endings });
        proof {
            assert(done == k * at_once);
            assert((k + 1) * at_once == k * at_once + at_once) by (nonlinear_arith);
        }
        done = done + taking;
    }
    out
}

/// How many work items a kernel's groups hold: what the kernel allows (the device's maximum
/// where it did not say, given as zero), no more than the device's maximum, kept within 1..=256,
/// then rounded down to a multiple of the size the device prefers (one where it did not say),
/// and never below one such multiple. A full group per compute unit beats a ragged one.
pub open spec fn group_size_spec(allowed: int, max_group: int, multiple: int) -> int {
    let allowed = if allowed > 0 {
        allowed
    } else {
        max_group
    };
    let step = if multiple > 0 {
        multiple
    } else {
        1
    };
    let least = if allowed < max_group {
        allowed
    } else {
        max_group
    };
    let capped = if least < 1 {
        1
    } else if least > 256 {
        256
    } else {
        least
    };
    let groups = capped / step;
    (if groups < 1 {
        1
    } else {
        groups
    }) * step
}

/// A group is the largest whole number of preferred multiples (one where none was given) that
/// fits under the cap -- the kernel's own limit where given, no more than the device's, and
/// within 1..=256 -- and one multiple when not even one fits.
pub proof fn law_a_group_is_whole_multiples(allowed: int, max_group: int, multiple: int)
    requires
        allowed >= 0,
        max_group >= 0,
        multiple >= 0,
    ensures
        ({
            let step = if multiple > 0 { multiple } else { 1 };
            let limit = if allowed > 0 && allowed < max_group { allowed } else { max_group };
            let cap = if limit < 1 { 1 } else if limit > 256 { 256 } else { limit };
            let out = group_size_spec(allowed, max_group, multiple);
            &&& out >= 1
            &&& out % step == 0
            &&& out <= cap || out == step
            &&& out + step > cap
        }),
{
    let step = if multiple > 0 { multiple } else { 1 };
    let allowed2 = if allowed > 0 { allowed } else { max_group };
    let least = if allowed2 < max_group { allowed2 } else { max_group };
    let cap = if least < 1 { 1 } else if least > 256 { 256 } else { least };
    let groups = cap / step;
    let g = if groups < 1 { 1 } else { groups };
    assert(g * step >= 1 && (g * step) % step == 0 && (g * step <= cap || g * step == step) && g * step
        + step > cap) by (nonlinear_arith)
        requires
            step >= 1,
            cap >= 1,
            groups == cap / step,
            g == if groups < 1 { 1 } else { groups },
    ;
}

/// [`group_size_spec`], computed.
pub fn group_size(allowed: usize, max_group: usize, multiple: usize) -> (out: usize)
    ensures
        out == group_size_spec(allowed as int, max_group as int, multiple as int),
        out >= 1,
{
    let allowed = if allowed > 0 {
        allowed
    } else {
        max_group
    };
    let step = if multiple > 0 {
        multiple
    } else {
        1
    };
    let least = if allowed < max_group {
        allowed
    } else {
        max_group
    };
    let capped = if least < 1 {
        1
    } else if least > 256 {
        256
    } else {
        least
    };
    let groups = capped / step;
    if groups < 1 {
        step
    } else {
        proof {
            assert(groups * step <= capped && groups * step >= 1) by (nonlinear_arith)
                requires
                    groups == capped / step,
                    groups >= 1,
                    step >= 1,
                    capped >= 1,
            ;
        }
        groups * step
    }
}

/// How a ladder rung is launched over `n` values, as the group size and the total number of
/// work items: groups of at most 64, and enough whole groups to cover every value -- except the
/// rung that strides, which gets a single group so that it has to walk the rest itself.
pub fn rung_launch(group: usize, n: usize, strides: bool) -> (out: (usize, usize))
    requires
        n + 64 <= usize::MAX,
    ensures
        out.0 == if group < 1 {
            1
        } else if group > 64 {
            64
        } else {
            group as int
        },
        out.1 == if strides {
            out.0 as int
        } else {
            (if (n + out.0 - 1) / (out.0 as int) < 1 {
                1
            } else {
                (n + out.0 - 1) / (out.0 as int)
            }) * out.0
        },
{
    let local = if group < 1 {
        1
    } else if group > 64 {
        64
    } else {
        group
    };
    if strides {
        (local, local)
    } else {
        let count = (n + local - 1) / local;
        let groups = if count < 1 {
            1
        } else {
            count
        };
        proof {
            assert(groups * local <= n + local) by (nonlinear_arith)
                requires
                    groups == 1 || groups == count,
                    count == (n + local - 1) / (local as int),
                    1 <= local <= 64,
                    n >= 0,
            ;
        }
        (local, groups * local)
    }
}

/// The sum of a list of buffer sizes.
pub open spec fn total_size(sizes: Seq<u64>) -> int
    decreases sizes.len(),
{
    if sizes.len() == 0 {
        0
    } else {
        total_size(sizes.drop_last()) + sizes.last()
    }
}

/// Whether a set of buffers fits a device.
pub enum Fit {
    /// Every buffer fits, and so does the whole.
    Fits,
    /// This buffer, the first such, is larger than the device allows one allocation to be.
    TooBig(usize),
    /// Each buffer fits on its own, but together they need this many bytes, more than is usable.
    TooMuch(u64),
}

/// Whether buffers of these sizes fit a device that caps one allocation at `max_alloc` bytes
/// and has `room` bytes usable of its `global_mem`. A zero cap or a zero memory size is one the
/// device did not report, and is not held against it.
pub fn fit(sizes: &[u64], max_alloc: u64, global_mem: u64, room: u64) -> (out: Fit)
    requires
        total_size(sizes@) <= u64::MAX,
    ensures
        match out {
            Fit::TooBig(i) => i < sizes@.len() && max_alloc > 0 && sizes@[i as int] > max_alloc
                && forall|j: int| 0 <= j < i ==> #[trigger] sizes@[j] <= max_alloc,
            Fit::TooMuch(total) => (max_alloc == 0 || forall|j: int|
                0 <= j < sizes@.len() ==> #[trigger] sizes@[j] <= max_alloc) && global_mem > 0
                && total == total_size(sizes@) && total > room,
            Fit::Fits => (max_alloc == 0 || forall|j: int|
                0 <= j < sizes@.len() ==> #[trigger] sizes@[j] <= max_alloc) && (global_mem == 0
                || total_size(sizes@) <= room),
        },
{
    let mut total: u64 = 0;
    let mut i: usize = 0;
    while i < sizes.len()
        invariant
            i <= sizes@.len(),
            total == total_size(sizes@.take(i as int)),
            total_size(sizes@) <= u64::MAX,
            max_alloc == 0 || forall|j: int| 0 <= j < i ==> #[trigger] sizes@[j] <= max_alloc,
        decreases sizes@.len() - i,
    {
        proof {
            assert(sizes@.take(i + 1).drop_last() =~= sizes@.take(i as int));
            lemma_total_grows(sizes@, i as int + 1);
        }
        total = total + sizes[i];
        if max_alloc > 0 && sizes[i] > max_alloc {
            return Fit::TooBig(i);
        }
        i = i + 1;
    }
    assert(sizes@.take(i as int) =~= sizes@);
    if global_mem > 0 && total > room {
        Fit::TooMuch(total)
    } else {
        Fit::Fits
    }
}

/// A prefix of the sizes sums to no more than all of them.
proof fn lemma_total_grows(sizes: Seq<u64>, n: int)
    requires
        0 <= n <= sizes.len(),
    ensures
        total_size(sizes.take(n)) <= total_size(sizes),
    decreases sizes.len() - n,
{
    if n < sizes.len() {
        assert(sizes.take(n + 1).drop_last() =~= sizes.take(n));
        lemma_total_grows(sizes, n + 1);
    } else {
        assert(sizes.take(n) =~= sizes);
    }
}

/// How many rows of a peel of `spellings` ids go to a device at once: as many as the smaller of
/// its per-buffer cap (`max_alloc`, zero when not reported) and its usable memory (`usable`)
/// holds, one row being eight bytes per id, unless a count was forced (`forced`, zero when not),
/// and never more than there are `rows`. None when not even one row fits.
pub fn rows_that_fit(spellings: usize, rows: usize, max_alloc: u64, usable: u64, forced: usize) -> (out: Option<usize>)
    requires
        spellings * 8 <= u64::MAX,
    ensures
        ({
            let per_buffer = if max_alloc > 0 {
                max_alloc as int
            } else {
                u64::MAX as int
            };
            let budget = if per_buffer < usable {
                per_buffer
            } else {
                usable as int
            };
            let row = if spellings * 8 < 1 {
                1
            } else {
                spellings * 8
            };
            let fits = if forced > 0 {
                forced as int
            } else {
                ((budget / row) as u64) as usize as int
            };
            &&& out is None <==> fits == 0
            &&& out matches Some(n) ==> n == if fits < rows {
                fits
            } else {
                rows as int
            }
        }),
{
    let row_bytes = spellings as u64 * 8;
    let per_buffer = if max_alloc > 0 {
        max_alloc
    } else {
        u64::MAX
    };
    let budget = if per_buffer < usable {
        per_buffer
    } else {
        usable
    };
    let row = if row_bytes < 1 {
        1
    } else {
        row_bytes
    };
    let fits = if forced > 0 {
        forced
    } else {
        (budget / row) as usize
    };
    if fits == 0 {
        None
    } else if fits < rows {
        Some(fits)
    } else {
        Some(rows)
    }
}

} // verus!
