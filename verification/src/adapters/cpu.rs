//! The sweep on the processor.
//!
//! This is not a fallback bolted on beside the real implementation. It is the definition of what
//! a correct answer is, and a device is checked against it -- so it is written for obviousness,
//! and it reads the same flat arrays a kernel reads rather than the structures the search finds
//! convenient.

use vstd::prelude::*;

use crate::filter::{coarse_slot, fine_slot, has_bit};
use crate::hash::{fold_bytes, mix, normal, peel_bytes, unmix};
use crate::ports::backend::{
    ascending, lemma_mark_parts, mark, normalised, Backend, Hit, PeelRequest, StemBatch, SweepRequest, Unsupported,
    BARE_OPENING,
};
use crate::{BASIS, PRIME, PRIME_INVERSE};

verus! {

/// The fold over bytes that are already normalised: no lowering, no slash folding.
pub open spec fn plain_fold(hash: u64, text: Seq<u8>) -> u64
    decreases text.len(),
{
    if text.len() == 0 {
        hash
    } else {
        mix(plain_fold(hash, text.drop_last()), text.last())
    }
}

/// The peel over bytes that are already normalised.
pub open spec fn plain_peel(hash: u64, text: Seq<u8>) -> u64
    decreases text.len(),
{
    if text.len() == 0 {
        hash
    } else {
        plain_peel(unmix(hash, text.last()), text.drop_last())
    }
}

/// Folding packed bytes is folding the text they were packed from.
pub proof fn lemma_plain_fold_normalised(hash: u64, text: Seq<u8>, fold: bool)
    ensures
        plain_fold(hash, normalised(text, fold)) == fold_bytes(hash, text, fold),
        plain_peel(hash, normalised(text, fold)) == peel_bytes(hash, text, fold),
    decreases text.len(),
{
    if text.len() > 0 {
        assert(normalised(text, fold).drop_last() =~= normalised(text.drop_last(), fold));
        lemma_plain_fold_normalised(hash, text.drop_last(), fold);
        lemma_plain_fold_normalised(unmix(hash, normal(text.last(), fold)), text.drop_last(), fold);
    }
}

/// The hits the beginnings `0..k` give stem `i`, in order.
pub open spec fn opening_hits(request: &SweepRequest, i: int, k: int) -> Seq<Hit>
    decreases k,
{
    if k <= 0 {
        Seq::empty()
    } else {
        opening_hits(request, i, k - 1) + if request.peeled.admits(
            plain_fold(request.openings@[k - 1], request.stems.stem(i)),
        ) {
            seq![mark(i, k - 1)]
        } else {
            Seq::empty()
        }
    }
}

/// Every hit stem `i` gives: the bare stem first, when it is asked for, then each beginning.
pub open spec fn stem_hits(request: &SweepRequest, i: int) -> Seq<Hit> {
    (if request.bare && request.peeled.admits(plain_fold(BASIS, request.stems.stem(i))) {
        seq![mark(i, BARE_OPENING as int)]
    } else {
        Seq::empty()
    }) + opening_hits(request, i, request.openings@.len() as int)
}

/// The hits of stems `start..end`, stem by stem.
pub open spec fn sweep_from(request: &SweepRequest, start: int, end: int) -> Seq<Hit>
    decreases end - start,
{
    if end <= start {
        Seq::empty()
    } else {
        sweep_from(request, start, end - 1) + stem_hits(request, end - 1)
    }
}

/// The hits of the first `n` stems: what a sweep of the whole batch answers.
pub open spec fn sweep_hits(request: &SweepRequest, n: int) -> Seq<Hit> {
    sweep_from(request, 0, n)
}

/// What the peel answers, ending-major: slot `s` of row `r` is spelling `s` with ending `r` taken
/// off, and row zero is the spellings themselves when the un-peeled spelling was asked for.
pub open spec fn peel_rows(request: &PeelRequest) -> Seq<u64> {
    let n = request.spellings@.len() as int;
    let skip = if request.no_ending { 1int } else { 0int };
    Seq::new(
        (n * request.rows()) as nat,
        |p: int|
            if request.no_ending && p / n == 0 {
                request.spellings@[p % n]
            } else {
                plain_peel(request.spellings@[p % n], request.endings.stem(p / n - skip))
            },
    )
}

/// Sweeping consecutive ranges and joining the answers is sweeping the whole range: the work can
/// be handed out in pieces and put back together.
pub proof fn law_sweeps_join(request: &SweepRequest, a: int, b: int, c: int)
    requires
        a <= b <= c,
    ensures
        sweep_from(request, a, b) + sweep_from(request, b, c) == sweep_from(request, a, c),
    decreases c - b,
{
    if b < c {
        law_sweeps_join(request, a, b, c - 1);
        assert(sweep_from(request, a, b) + (sweep_from(request, b, c - 1) + stem_hits(request, c - 1))
            =~= (sweep_from(request, a, b) + sweep_from(request, b, c - 1)) + stem_hits(request, c - 1));
    } else {
        assert(sweep_from(request, a, b) + Seq::<Hit>::empty() =~= sweep_from(request, a, b));
    }
}

/// Whether a sweep reports stem `i` against beginning `k`, where `k` is `BARE_OPENING` for the
/// bare stem: the fold lands in the peeled set, and the beginning is one the request asked for.
pub open spec fn reported(request: &SweepRequest, i: int, k: int) -> bool {
    &&& 0 <= i < request.stems.count()
    &&& if k == BARE_OPENING as int {
        request.bare && request.peeled.admits(plain_fold(BASIS, request.stems.stem(i)))
    } else {
        0 <= k < request.openings@.len() && request.peeled.admits(
            plain_fold(request.openings@[k], request.stems.stem(i)),
        )
    }
}

/// What the beginnings `0..n` give stem `i` is one mark for each beginning whose fold lands.
proof fn lemma_opening_hits_contain(request: &SweepRequest, i: int, n: int, x: u64)
    requires
        request.wf(),
        0 <= i < request.stems.count(),
        0 <= n <= request.openings@.len(),
    ensures
        opening_hits(request, i, n).contains(x) <==> exists|k: int|
            0 <= k < n && reported(request, i, k) && x == #[trigger] mark(i, k),
    decreases n,
{
    broadcast use vstd::seq_lib::lemma_seq_concat_contains_all_elements;

    if n > 0 {
        lemma_opening_hits_contain(request, i, n - 1, x);
        let lands = request.peeled.admits(
            plain_fold(request.openings@[n - 1], request.stems.stem(i)),
        );
        let last = if lands {
            seq![mark(i, n - 1)]
        } else {
            Seq::<Hit>::empty()
        };
        assert(opening_hits(request, i, n) == opening_hits(request, i, n - 1) + last);
        if last.contains(x) {
            assert(last[0] == x);
            assert(reported(request, i, n - 1));
        }
        if exists|k: int| 0 <= k < n && reported(request, i, k) && x == #[trigger] mark(i, k) {
            let k = choose|k: int| 0 <= k < n && reported(request, i, k) && x == #[trigger] mark(i, k);
            if k == n - 1 {
                assert(last[0] == x);
            }
        }
    }
}

/// What a sweep of stems `a..b` holds is exactly the marks of what it reports.
pub proof fn lemma_sweep_contains(request: &SweepRequest, a: int, b: int, x: u64)
    requires
        request.wf(),
        0 <= a <= b <= request.stems.count(),
    ensures
        sweep_from(request, a, b).contains(x) <==> exists|i: int, k: int|
            a <= i < b && reported(request, i, k) && x == #[trigger] mark(i, k),
    decreases b - a,
{
    broadcast use vstd::seq_lib::lemma_seq_concat_contains_all_elements;

    if a < b {
        let i = b - 1;
        lemma_sweep_contains(request, a, i, x);
        lemma_opening_hits_contain(request, i, request.openings@.len() as int, x);
        let bare = request.bare && request.peeled.admits(plain_fold(BASIS, request.stems.stem(i)));
        let first = if bare {
            seq![mark(i, BARE_OPENING as int)]
        } else {
            Seq::<Hit>::empty()
        };
        let rest = opening_hits(request, i, request.openings@.len() as int);
        assert(stem_hits(request, i) == first + rest);
        assert(sweep_from(request, a, b) == sweep_from(request, a, i) + (first + rest));
        if first.contains(x) {
            assert(first[0] == x);
            assert(reported(request, i, BARE_OPENING as int));
        }
        if rest.contains(x) {
            let k = choose|k: int|
                0 <= k < request.openings@.len() && reported(request, i, k) && x == #[trigger] mark(
                    i,
                    k,
                );
            assert(a <= i < b && reported(request, i, k) && x == mark(i, k));
        }
        if exists|j: int, k: int| a <= j < b && reported(request, j, k) && x == #[trigger] mark(j, k) {
            let (j, k) = choose|j: int, k: int|
                a <= j < b && reported(request, j, k) && x == #[trigger] mark(j, k);
            if j == i {
                if k == BARE_OPENING as int {
                    assert(first[0] == x);
                } else {
                    assert(0 <= k < request.openings@.len());
                }
            } else {
                assert(a <= j < i);
            }
        }
    }
}

/// A mark is one stem and one beginning: two marks are the same only when both are.
pub proof fn lemma_marks_differ(i: int, k: int, j: int, l: int)
    requires
        0 <= i <= 0xFFFF_FFFF,
        0 <= k <= 0xFFFF_FFFF,
        0 <= j <= 0xFFFF_FFFF,
        0 <= l <= 0xFFFF_FFFF,
        i != j || k != l,
    ensures
        mark(i, k) != mark(j, l),
{
    lemma_mark_parts(i as u64, k as u64);
    lemma_mark_parts(j as u64, l as u64);
}

/// The beginnings `0..n` never give stem `i` the same mark twice.
proof fn lemma_opening_hits_distinct(request: &SweepRequest, i: int, n: int)
    requires
        request.wf(),
        0 <= i < request.stems.count(),
        0 <= n <= request.openings@.len(),
    ensures
        opening_hits(request, i, n).no_duplicates(),
    decreases n,
{
    if n > 0 {
        lemma_opening_hits_distinct(request, i, n - 1);
        let before = opening_hits(request, i, n - 1);
        let last = if request.peeled.admits(plain_fold(request.openings@[n - 1], request.stems.stem(i))) {
            seq![mark(i, n - 1)]
        } else {
            Seq::empty()
        };
        assert forall|p: int, q: int| 0 <= p < before.len() && 0 <= q < last.len() implies before[p]
            != last[q] by {
            assert(before.contains(before[p]));
            lemma_opening_hits_contain(request, i, n - 1, before[p]);
            let k: int = choose|k: int| 0 <= k < n - 1 && reported(request, i, k) && before[p] == #[trigger] mark(i, k);
            lemma_marks_differ(i, k, i, n - 1);
        }
        vstd::seq_lib::lemma_no_dup_in_concat(before, last);
    }
}

/// A sweep never reports the same mark twice.
pub proof fn lemma_sweep_distinct(request: &SweepRequest, a: int, b: int)
    requires
        request.wf(),
        0 <= a <= b <= request.stems.count(),
    ensures
        sweep_from(request, a, b).no_duplicates(),
    decreases b - a,
{
    if a < b {
        let i: int = b - 1;
        lemma_sweep_distinct(request, a, i);
        let before = sweep_from(request, a, i);
        let bare = request.bare && request.peeled.admits(plain_fold(BASIS, request.stems.stem(i)));
        let first = if bare {
            seq![mark(i, BARE_OPENING as int)]
        } else {
            Seq::<Hit>::empty()
        };
        let rest = opening_hits(request, i, request.openings@.len() as int);
        lemma_opening_hits_distinct(request, i, request.openings@.len() as int);
        assert forall|p: int, q: int| 0 <= p < first.len() && 0 <= q < rest.len() implies first[p]
            != rest[q] by {
            assert(rest.contains(rest[q]));
            lemma_opening_hits_contain(request, i, request.openings@.len() as int, rest[q]);
            let k: int = choose|k: int|
                0 <= k < request.openings@.len() && reported(request, i, k) && rest[q] == #[trigger] mark(i, k);
            lemma_marks_differ(i, BARE_OPENING as int, i, k);
        }
        vstd::seq_lib::lemma_no_dup_in_concat(first, rest);
        assert(stem_hits(request, i) == first + rest);
        let here = stem_hits(request, i);
        assert(sweep_from(request, i, i) == Seq::<Hit>::empty());
        assert(sweep_from(request, i, b) == sweep_from(request, i, i) + here);
        assert(sweep_from(request, i, b) =~= here);
        assert forall|p: int, q: int| 0 <= p < before.len() && 0 <= q < here.len() implies before[p]
            != here[q] by {
            assert(before.contains(before[p]));
            assert(here.contains(here[q]));
            lemma_sweep_contains(request, a, i, before[p]);
            lemma_sweep_contains(request, i, b, here[q]);
            let (j, k) = choose|j: int, k: int|
                a <= j < i && reported(request, j, k) && before[p] == #[trigger] mark(j, k);
            let (j2, k2) = choose|j2: int, k2: int|
                i <= j2 < b && reported(request, j2, k2) && here[q] == #[trigger] mark(j2, k2);
            lemma_marks_differ(j, k, j2, k2);
        }
        vstd::seq_lib::lemma_no_dup_in_concat(before, here);
    }
}

/// The processor, as a backend.
pub struct Cpu {
    threads: usize,
}

impl Cpu {
    /// A processor backend that says it runs on `threads` threads.
    pub fn with_threads(threads: usize) -> (cpu: Self)
        ensures
            cpu.threads() == threads,
    {
        Cpu { threads }
    }

    pub closed spec fn threads(&self) -> usize {
        self.threads
    }

    /// How many threads the work is meant to be spread over.
    pub fn thread_count(&self) -> (out: usize)
        ensures
            out == self.threads(),
    {
        self.threads
    }
}

/// Whether a sorted list holds `value`, by binary search.
pub fn sorted_contains(list: &[u64], value: u64) -> (found: bool)
    requires
        ascending(list@),
    ensures
        found == list@.contains(value),
{
    let mut low: usize = 0;
    let mut high: usize = list.len();
    while low < high
        invariant
            low <= high <= list@.len(),
            ascending(list@),
            forall|i: int| 0 <= i < low ==> #[trigger] list@[i] < value,
            forall|i: int| high <= i < list@.len() ==> #[trigger] list@[i] > value,
        decreases high - low,
    {
        let middle = low + (high - low) / 2;
        let here = list[middle];
        if here == value {
            assert(list@[middle as int] == value);
            return true;
        } else if here < value {
            low = middle + 1;
        } else {
            high = middle;
        }
    }
    proof {
        if list@.contains(value) {
            let i = choose|i: int| 0 <= i < list@.len() && list@[i] == value;
            assert(list@[i] == value);
        }
    }
    false
}

/// The fold over one packed stem, starting from `state`.
fn fold_stem(state: u64, batch: &StemBatch, index: usize) -> (out: u64)
    requires
        batch.wf(),
        index < batch.count(),
    ensures
        out == plain_fold(state, batch.stem(index as int)),
{
    let total = batch.bytes.len();
    let at = batch.offsets[index] as usize;
    let len = batch.lengths[index] as usize;
    let ghost text = batch.stem(index as int);
    let mut hash = state;
    let mut k: usize = 0;
    while k < len
        invariant
            batch.wf(),
            index < batch.count(),
            at == batch.offsets@[index as int],
            len == batch.lengths@[index as int],
            at + len <= batch.bytes@.len(),
            total == batch.bytes@.len(),
            text == batch.bytes@.subrange(at as int, at + len),
            k <= len,
            hash == plain_fold(state, text.subrange(0, k as int)),
        decreases len - k,
    {
        assert(text.subrange(0, k + 1).drop_last() =~= text.subrange(0, k as int));
        let byte = batch.bytes[at + k];
        hash = (hash ^ (byte as u64)).wrapping_mul(PRIME);
        k = k + 1;
    }
    assert(text.subrange(0, len as int) =~= text);
    hash
}

/// The peel over one packed stem, starting from `state`.
fn peel_stem(state: u64, batch: &StemBatch, index: usize) -> (out: u64)
    requires
        batch.wf(),
        index < batch.count(),
    ensures
        out == plain_peel(state, batch.stem(index as int)),
{
    let total = batch.bytes.len();
    let at = batch.offsets[index] as usize;
    let len = batch.lengths[index] as usize;
    let ghost text = batch.stem(index as int);
    let mut hash = state;
    let mut k: usize = len;
    assert(text.subrange(0, len as int) =~= text);
    while k > 0
        invariant
            batch.wf(),
            index < batch.count(),
            at == batch.offsets@[index as int],
            len == batch.lengths@[index as int],
            at + len <= batch.bytes@.len(),
            total == batch.bytes@.len(),
            text == batch.bytes@.subrange(at as int, at + len),
            k <= len,
            plain_peel(hash, text.subrange(0, k as int)) == plain_peel(state, text),
        decreases k,
    {
        assert(text.subrange(0, k as int).drop_last() =~= text.subrange(0, k - 1));
        let byte = batch.bytes[at + k - 1];
        hash = hash.wrapping_mul(PRIME_INVERSE) ^ (byte as u64);
        k = k - 1;
    }
    hash
}

/// Whether a hash reaches the peeled set: both bitmaps, then the list.
fn admitted(request: &SweepRequest, hash: u64) -> (out: bool)
    requires
        request.wf(),
    ensures
        out == request.peeled.admits(hash),
{
    let peeled = &request.peeled;
    let filter_coarse = peeled.coarse;
    let filter_fine = peeled.fine;
    proof {
        crate::filter::lemma_bitmap_index(hash, peeled.coarse_bits, peeled.fine_bits);
    }
    let slot = hash & ((1u64 << peeled.coarse_bits) - 1);
    if filter_coarse[(slot >> 6u64) as usize] & (1u64 << (slot & 63u64)) == 0 {
        return false;
    }
    let slot = (hash >> peeled.coarse_bits) & ((1u64 << peeled.fine_bits) - 1);
    if filter_fine[(slot >> 6u64) as usize] & (1u64 << (slot & 63u64)) == 0 {
        return false;
    }
    sorted_contains(peeled.hashes, hash)
}

/// The hits of stems `start..end`, in the order the processor emits them: stem by stem, the
/// bare stem first and then each beginning in turn.
///
/// A range rather than the whole batch so that the work can be handed to several threads and
/// the pieces joined in order (see [`law_sweeps_join`]).
pub fn sweep_stems(request: &SweepRequest, start: usize, end: usize) -> (hits: Vec<Hit>)
    requires
        request.wf(),
        start <= end <= request.stems.count(),
    ensures
        hits@ == sweep_from(request, start as int, end as int),
{
    let mut hits: Vec<Hit> = Vec::new();
    let mut index = start;
    while index < end
        invariant
            request.wf(),
            start <= index <= end <= request.stems.count(),
            hits@ == sweep_from(request, start as int, index as int),
        decreases end - index,
    {
        let ghost before = hits@;
        if request.bare {
            let hash = fold_stem(BASIS, request.stems, index);
            if admitted(request, hash) {
                hits.push(((index as u64) << 32u64) | BARE_OPENING);
            }
        }
        let ghost after_bare = hits@;
        let mut opening: usize = 0;
        while opening < request.openings.len()
            invariant
                request.wf(),
                index < request.stems.count(),
                opening <= request.openings@.len(),
                hits@ == after_bare + opening_hits(request, index as int, opening as int),
            decreases request.openings@.len() - opening,
        {
            let hash = fold_stem(request.openings[opening], request.stems, index);
            if admitted(request, hash) {
                hits.push(((index as u64) << 32u64) | (opening as u64));
            }
            proof {
                assert(opening_hits(request, index as int, opening + 1) =~= opening_hits(
                    request,
                    index as int,
                    opening as int,
                ) + if request.peeled.admits(
                    plain_fold(request.openings@[opening as int], request.stems.stem(index as int)),
                ) {
                    seq![mark(index as int, opening as int)]
                } else {
                    Seq::empty()
                });
            }
            opening = opening + 1;
        }
        assert(hits@ =~= before + stem_hits(request, index as int));
        index = index + 1;
    }
    hits
}

/// Peels one ending off every spelling.
fn peel_row(request: &PeelRequest, ending: usize, into: &mut Vec<u64>)
    requires
        request.wf(),
        ending < request.endings.count(),
    ensures
        final(into)@ == old(into)@ + Seq::new(
            request.spellings@.len(),
            |s: int| plain_peel(request.spellings@[s], request.endings.stem(ending as int)),
        ),
{
    let ghost before = into@;
    let mut slot: usize = 0;
    while slot < request.spellings.len()
        invariant
            request.wf(),
            ending < request.endings.count(),
            slot <= request.spellings@.len(),
            into@ == before + Seq::new(
                slot as nat,
                |s: int| plain_peel(request.spellings@[s], request.endings.stem(ending as int)),
            ),
        decreases request.spellings@.len() - slot,
    {
        let hash = peel_stem(request.spellings[slot], request.endings, ending);
        into.push(hash);
        assert(into@ =~= before + Seq::new(
            (slot + 1) as nat,
            |s: int| plain_peel(request.spellings@[s], request.endings.stem(ending as int)),
        ));
        slot = slot + 1;
    }
}

impl Backend for Cpu {
    fn name(&self) -> (out: String)
        ensures
            out@ == crate::text::decimal_spec(self.threads() as nat) + " CPU threads"@,
    {
        let mut out = crate::text::decimal(self.threads as u64);
        out.append(" CPU threads");
        out
    }

    fn sweep(&self, request: &SweepRequest) -> (out: Result<Vec<Hit>, Unsupported>)
        ensures
            out matches Ok(hits) && hits@ == sweep_hits(request, request.stems.count()),
    {
        Ok(sweep_stems(request, 0, request.stems.len()))
    }

    fn peel(&self, request: &PeelRequest) -> (out: Result<Vec<u64>, Unsupported>)
        ensures
            out matches Ok(peeled) && peeled@ == peel_rows(request),
    {
        Ok(peel_all(request))
    }
}

/// The whole peel, ending-major: row zero the un-peeled spellings when they were asked for, then
/// one row per ending.
pub fn peel_all(request: &PeelRequest) -> (peeled: Vec<u64>)
    requires
        request.wf(),
    ensures
        peeled@ == peel_rows(request),
{
    let n = request.spellings.len();
    let mut peeled: Vec<u64> = Vec::new();
    let ghost skip: int = if request.no_ending { 1 } else { 0 };
    if request.no_ending {
        let mut slot: usize = 0;
        while slot < n
            invariant
                n == request.spellings@.len(),
                slot <= n,
                peeled@ == request.spellings@.subrange(0, slot as int),
            decreases n - slot,
        {
            peeled.push(request.spellings[slot]);
            assert(peeled@ =~= request.spellings@.subrange(0, slot + 1));
            slot = slot + 1;
        }
        assert(n * request.rows() >= n) by (nonlinear_arith)
            requires
                request.rows() >= 1,
                n >= 0,
        ;
        assert forall|p: int| 0 <= p < peeled@.len() implies #[trigger] peeled@[p]
            == peel_rows(request)[p] by {
            lemma_row_slot(n as int, 0, p);
        }
    }
    assert(peeled@.len() == n * (0 + skip)) by (nonlinear_arith)
        requires
            skip == 1 ==> peeled@.len() == n,
            skip == 0 ==> peeled@.len() == 0,
            skip == 0 || skip == 1,
    ;
    let mut ending: usize = 0;
    while ending < request.endings.len()
        invariant
            request.wf(),
            n == request.spellings@.len(),
            skip == if request.no_ending { 1int } else { 0int },
            ending <= request.endings.count(),
            peeled@.len() == n * (ending + skip),
            forall|p: int|
                0 <= p < peeled@.len() ==> #[trigger] peeled@[p] == peel_rows(request)[p],
        decreases request.endings.count() - ending,
    {
        let ghost before = peeled@;
        proof {
            assert(n * (ending + skip) + n == n * (ending + 1 + skip)) by (nonlinear_arith);
            assert(n * (ending + 1 + skip) <= n * request.rows()) by (nonlinear_arith)
                requires
                    ending + 1 + skip <= request.rows(),
                    n >= 0,
            ;
        }
        peel_row(request, ending, &mut peeled);
        proof {
            assert forall|p: int| 0 <= p < peeled@.len() implies #[trigger] peeled@[p]
                == peel_rows(request)[p] by {
                if p >= before.len() {
                    let s = p - before.len();
                    assert(p == n * (ending + skip) + s);
                    lemma_row_slot(n as int, (ending + skip) as int, s);
                }
            }
        }
        ending = ending + 1;
    }
    proof {
        assert(peeled@.len() == n * request.rows());
        assert forall|p: int| 0 <= p < peeled@.len() implies #[trigger] peeled@[p]
            == peel_rows(request)[p] by {}
        if request.no_ending && request.endings.count() == 0 {
            assert(n * request.rows() == n) by (nonlinear_arith)
                requires
                    request.rows() == 1,
            ;
            assert forall|p: int| 0 <= p < peeled@.len() implies #[trigger] peeled@[p]
                == peel_rows(request)[p] by {
                lemma_row_slot(n as int, 0, p);
            }
        }
    }
    assert(peeled@ =~= peel_rows(request));
    peeled
}

/// What a peel holds: the spellings themselves when they were asked for, and every spelling with
/// every ending taken off.
pub proof fn lemma_peel_rows_contain(request: &PeelRequest, x: u64)
    requires
        request.wf(),
    ensures
        peel_rows(request).contains(x) <==> (request.no_ending && request.spellings@.contains(x))
            || exists|s: int, j: int|
            0 <= s < request.spellings@.len() && 0 <= j < request.endings.count() && x
                == #[trigger] plain_peel(request.spellings@[s], request.endings.stem(j)),
{
    let n = request.spellings@.len() as int;
    let skip = if request.no_ending { 1int } else { 0int };
    let total = request.rows();
    let rows = peel_rows(request);
    assert(rows.len() == n * total);
    if rows.contains(x) {
        let p = choose|p: int| 0 <= p < rows.len() && rows[p] == x;
        assert(n > 0) by (nonlinear_arith)
            requires
                0 <= p < n * total,
                n >= 0,
                total >= 0,
        ;
        let r = p / n;
        let s = p % n;
        assert(0 <= r < total && 0 <= s < n) by (nonlinear_arith)
            requires
                0 <= p < n * total,
                n > 0,
                r == p / n,
                s == p % n,
        ;
        if !(request.no_ending && r == 0) {
            assert(0 <= r - skip < request.endings.count());
            assert(x == plain_peel(request.spellings@[s], request.endings.stem(r - skip)));
        } else {
            assert(request.spellings@[s] == x);
        }
    }
    if request.no_ending && request.spellings@.contains(x) {
        let s = choose|s: int| 0 <= s < n && request.spellings@[s] == x;
        lemma_row_slot(n, 0, s);
        assert(n * 0 + s < n * total) by (nonlinear_arith)
            requires
                0 <= s < n,
                total >= 1,
        ;
        assert(rows[s] == x);
    }
    if exists|s: int, j: int|
        0 <= s < n && 0 <= j < request.endings.count() && x == #[trigger] plain_peel(
            request.spellings@[s],
            request.endings.stem(j),
        ) {
        let (s, j) = choose|s: int, j: int|
            0 <= s < n && 0 <= j < request.endings.count() && x == #[trigger] plain_peel(
                request.spellings@[s],
                request.endings.stem(j),
            );
        let p = n * (j + skip) + s;
        lemma_row_slot(n, j + skip, s);
        assert(p < n * total) by (nonlinear_arith)
            requires
                0 <= s < n,
                0 <= j + skip,
                j + skip + 1 <= total,
                p == n * (j + skip) + s,
        ;
        assert(rows[p] == x);
    }
}

/// Position `row * n + slot` is slot `slot` of row `row`.
proof fn lemma_row_slot(n: int, row: int, slot: int)
    requires
        0 <= slot < n,
        0 <= row,
    ensures
        (n * row + slot) / n == row,
        (n * row + slot) % n == slot,
{
    vstd::arithmetic::mul::lemma_mul_is_commutative(n, row);
    vstd::arithmetic::div_mod::lemma_fundamental_div_mod_converse(n * row + slot, n, row, slot);
}

} // verus!
