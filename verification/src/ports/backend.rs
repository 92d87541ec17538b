//! The one question the sweep asks, and the shape an answer comes back in.
//!
//! The sweep folds every stem into every beginning and asks whether the result landed in the
//! peeled set. That is the whole hot loop, and it is arithmetic over three flat arrays: the stems
//! as bytes, the beginnings as hash states, and the peeled set as a sorted list behind a bitmap.
//! Nothing in it needs to know what ran it.

use vstd::prelude::*;

use crate::filter::{coarse_slot, fine_slot, has_bit, words_for};
use crate::hash::normal;
use vstd::utf8::encode_utf8;

verus! {

/// Why a backend would not take a piece of work. Always a reason a human can act on.
#[derive(Debug, Clone)]
pub struct Unsupported(pub String);

impl Unsupported {
    pub fn new(why: String) -> (out: Self)
        ensures
            out.0@ == why@,
    {
        Unsupported(why)
    }

    /// The reason, as it would be printed.
    pub fn message(&self) -> (out: &str)
        ensures
            out@ == self.0@,
    {
        self.0.as_str()
    }
}

/// The longest stem the kernel holds in registers. The packed buffer is padded by this much so
/// that a whole window can be read past the last stem's start.
pub const PACKED_BYTES: usize = 32;

/// One stem-and-beginning that landed in the peeled set: the stem's index in the high 32 bits,
/// the beginning's in the low 32, and `0xFFFF_FFFF` there for the bare stem.
pub type Hit = u64;

/// The beginning index that means there was no beginning at all.
pub const BARE_OPENING: u64 = 0xFFFF_FFFF;

/// A hit, packed.
pub open spec fn mark(stem: int, opening: int) -> u64 {
    ((stem as u64) << 32u64) | (opening as u64)
}

/// A mark comes apart into the stem and the beginning it was made from.
pub proof fn lemma_mark_parts(stem: u64, opening: u64)
    requires
        stem <= 0xFFFF_FFFF,
        opening <= 0xFFFF_FFFF,
    ensures
        mark(stem as int, opening as int) >> 32u64 == stem,
        mark(stem as int, opening as int) & 0xFFFF_FFFFu64 == opening,
{
    assert(((stem << 32u64) | opening) >> 32u64 == stem) by (bit_vector)
        requires
            stem <= 0xFFFF_FFFF,
            opening <= 0xFFFF_FFFF,
    ;
    assert(((stem << 32u64) | opening) & 0xFFFF_FFFFu64 == opening) by (bit_vector)
        requires
            stem <= 0xFFFF_FFFF,
            opening <= 0xFFFF_FFFF,
    ;
}

/// Moving a mark's stem along by `base` is adding `base` in the high half.
pub proof fn lemma_mark_shift(stem: u64, opening: u64, base: u64)
    requires
        stem + base <= 0xFFFF_FFFF,
        opening <= 0xFFFF_FFFF,
    ensures
        mark(stem as int, opening as int) + (base << 32u64) == mark(stem + base, opening as int),
        mark(stem as int, opening as int) + (base << 32u64) <= u64::MAX,
{
    let moved = (stem + base) as u64;
    assert(((stem << 32u64) | opening) + (base << 32u64) == ((moved << 32u64) | opening)) by (bit_vector)
        requires
            stem + base <= 0xFFFF_FFFF,
            moved == stem + base,
            opening <= 0xFFFF_FFFF,
    ;
    assert(((stem << 32u64) | opening) + (base << 32u64) <= 0xFFFF_FFFF_FFFF_FFFFu64) by (bit_vector)
        requires
            stem + base <= 0xFFFF_FFFF,
            opening <= 0xFFFF_FFFF,
    ;
}

/// A text's bytes, normalised one by one.
pub open spec fn normalised(bytes: Seq<u8>, fold: bool) -> Seq<u8> {
    bytes.map_values(|b: u8| normal(b, fold))
}

/// How many bytes the first `n` of `stems` take, end to end.
pub open spec fn packed_len(stems: Seq<String>, n: int) -> int
    decreases n,
{
    if n <= 0 {
        0
    } else {
        packed_len(stems, n - 1) + encode_utf8(stems[n - 1]@).len()
    }
}

/// A sequence in ascending order.
pub open spec fn ascending(s: Seq<u64>) -> bool {
    forall|i: int, j: int| 0 <= i <= j < s.len() ==> s[i] <= s[j]
}

/// The stems of one pass, folded and laid flat.
///
/// The fold is applied here, once, rather than per beginning: a stem is hashed against every
/// beginning, so folding later would pay for the lowercasing once per beginning.
pub struct StemBatch {
    /// Every stem's bytes, end to end, already folded.
    pub bytes: Vec<u8>,
    /// Where each stem starts in `bytes`.
    pub offsets: Vec<u32>,
    /// How long each stem is.
    pub lengths: Vec<u32>,
}

impl StemBatch {
    /// Every stem lies inside the buffer.
    pub open spec fn wf(&self) -> bool {
        &&& self.offsets@.len() == self.lengths@.len()
        &&& forall|i: int|
            0 <= i < self.offsets@.len() ==> #[trigger] self.offsets@[i] + self.lengths@[i]
                <= self.bytes@.len()
    }

    /// How many stems the batch holds.
    pub open spec fn count(&self) -> int {
        self.offsets@.len() as int
    }

    /// The bytes of stem `i`.
    pub open spec fn stem(&self, i: int) -> Seq<u8> {
        self.bytes@.subrange(
            self.offsets@[i] as int,
            self.offsets@[i] as int + self.lengths@[i] as int,
        )
    }

    /// Packs a slice of stems, applying the fold the search was built with.
    pub fn pack(stems: &[String], fold: bool) -> (batch: Self)
        requires
            packed_len(stems@, stems@.len() as int) + PACKED_BYTES <= u32::MAX,
        ensures
            batch.wf(),
            batch.count() == stems@.len(),
            forall|i: int|
                0 <= i < stems@.len() ==> #[trigger] batch.stem(i) == normalised(
                    encode_utf8(stems@[i]@),
                    fold,
                ),
            forall|i: int|
                0 <= i < stems@.len() ==> #[trigger] batch.offsets@[i] == packed_len(stems@, i)
                    && batch.lengths@[i] == encode_utf8(stems@[i]@).len(),
            batch.bytes@.len() == packed_len(stems@, stems@.len() as int) + PACKED_BYTES,
            forall|i: int|
                packed_len(stems@, stems@.len() as int) <= i < batch.bytes@.len()
                    ==> #[trigger] batch.bytes@[i] == 0,
    {
        assert(stems@.subrange(0, stems@.len() as int) =~= stems@);
        let batch = Self::pack_range(stems, 0, stems.len(), fold);
        assert forall|i: int| 0 <= i < stems@.len() implies #[trigger] batch.offsets@[i] == packed_len(
            stems@,
            i,
        ) && batch.lengths@[i] == encode_utf8(stems@[i]@).len() by {
            assert(batch.offsets@[i] == packed_len(stems@.subrange(0, stems@.len() as int), i));
            assert(stems@[0 + i] == stems@[i]);
        }
        batch
    }

    /// Packs the stems `start..end` of a slice, applying the fold.
    pub fn pack_range(stems: &[String], start: usize, end: usize, fold: bool) -> (batch: Self)
        requires
            start <= end <= stems@.len(),
            packed_len(stems@.subrange(start as int, end as int), end - start) + PACKED_BYTES
                <= u32::MAX,
        ensures
            batch.wf(),
            batch.count() == end - start,
            forall|i: int|
                0 <= i < end - start ==> #[trigger] batch.stem(i) == normalised(
                    encode_utf8(stems@[start + i]@),
                    fold,
                ),
            forall|i: int|
                0 <= i < end - start ==> #[trigger] batch.offsets@[i] == packed_len(
                    stems@.subrange(start as int, end as int),
                    i,
                ) && batch.lengths@[i] == encode_utf8(stems@[start + i]@).len(),
            batch.bytes@.len() == packed_len(stems@.subrange(start as int, end as int), end - start)
                + PACKED_BYTES,
            forall|i: int|
                packed_len(stems@.subrange(start as int, end as int), end - start) <= i
                    < batch.bytes@.len() ==> #[trigger] batch.bytes@[i] == 0,
    {
        let ghost sub = stems@.subrange(start as int, end as int);
        let ghost n = end - start;
        let mut bytes: Vec<u8> = Vec::new();
        let mut offsets: Vec<u32> = Vec::new();
        let mut lengths: Vec<u32> = Vec::new();
        let mut s: usize = start;
        proof {
            lemma_packed_len_grows(sub, 0, n as int);
        }
        while s < end
            invariant
                start <= s <= end <= stems@.len(),
                sub == stems@.subrange(start as int, end as int),
                n == end - start,
                packed_len(sub, n as int) + PACKED_BYTES <= u32::MAX,
                offsets@.len() == s - start,
                lengths@.len() == s - start,
                bytes@.len() == packed_len(sub, s - start),
                forall|i: int| 0 <= i < s - start ==> #[trigger] offsets@[i] == packed_len(sub, i),
                forall|i: int|
                    0 <= i < s - start ==> #[trigger] lengths@[i] == encode_utf8(sub[i]@).len(),
                forall|i: int|
                    0 <= i < s - start ==> #[trigger] bytes@.subrange(
                        packed_len(sub, i),
                        packed_len(sub, i) + encode_utf8(sub[i]@).len(),
                    ) == normalised(encode_utf8(sub[i]@), fold),
            decreases end - s,
        {
            let ghost l = (s - start) as int;
            proof {
                lemma_packed_len_grows(sub, l + 1, n as int);
            }
            let text = stems[s].as_str().as_bytes();
            assert(sub[l] == stems@[s as int]);
            let at = bytes.len();
            let ghost before = bytes@;
            let mut k: usize = 0;
            while k < text.len()
                invariant
                    k <= text@.len(),
                    text@ == encode_utf8(sub[l]@),
                    at == before.len(),
                    bytes@.len() == at + k,
                    bytes@.subrange(0, at as int) == before,
                    bytes@.subrange(at as int, at + k) == normalised(
                        text@.subrange(0, k as int),
                        fold,
                    ),
                decreases text@.len() - k,
            {
                let byte = crate::hash::normalise(text[k], fold);
                let ghost prev = bytes@;
                bytes.push(byte);
                assert forall|j: int| 0 <= j < k implies #[trigger] bytes@[at + j] == normal(
                    text@[j],
                    fold,
                ) by {
                    assert(prev.subrange(at as int, at + k)[j] == prev[at + j]);
                    assert(normalised(text@.subrange(0, k as int), fold)[j] == normal(text@[j], fold));
                }
                assert forall|j: int| 0 <= j < k + 1 implies #[trigger] bytes@.subrange(
                    at as int,
                    at + k + 1,
                )[j] == normalised(text@.subrange(0, k + 1), fold)[j] by {
                    if j < k {
                        assert(bytes@[at + j] == normal(text@[j], fold));
                    }
                }
                assert(bytes@.subrange(at as int, at + k + 1) =~= normalised(
                    text@.subrange(0, k + 1),
                    fold,
                ));
                assert(bytes@.subrange(0, at as int) =~= before);
                k = k + 1;
            }
            assert(text@.subrange(0, text@.len() as int) =~= text@);
            offsets.push(at as u32);
            lengths.push(text.len() as u32);
            assert forall|i: int| 0 <= i < l + 1 implies #[trigger] bytes@.subrange(
                packed_len(sub, i),
                packed_len(sub, i) + encode_utf8(sub[i]@).len(),
            ) == normalised(encode_utf8(sub[i]@), fold) by {
                if i < l {
                    lemma_packed_len_grows(sub, i + 1, l);
                    lemma_packed_len_nonneg(sub, i);
                    assert(bytes@.subrange(0, at as int).subrange(
                        packed_len(sub, i),
                        packed_len(sub, i) + encode_utf8(sub[i]@).len(),
                    ) =~= bytes@.subrange(
                        packed_len(sub, i),
                        packed_len(sub, i) + encode_utf8(sub[i]@).len(),
                    ));
                }
            }
            s = s + 1;
        }
        let last = bytes.len();
        let ghost packed = bytes@;
        let mut pad: usize = 0;
        while pad < PACKED_BYTES
            invariant
                pad <= PACKED_BYTES,
                last == packed_len(sub, n as int),
                bytes@.len() == last + pad,
                bytes@.subrange(0, last as int) == packed,
                forall|i: int| last <= i < last + pad ==> #[trigger] bytes@[i] == 0,
            decreases PACKED_BYTES - pad,
        {
            bytes.push(0);
            assert(bytes@.subrange(0, last as int) =~= packed);
            pad = pad + 1;
        }
        let batch = StemBatch { bytes, offsets, lengths };
        assert forall|i: int| 0 <= i < n implies #[trigger] batch.offsets@[i] == packed_len(sub, i)
            && batch.lengths@[i] == encode_utf8(stems@[start + i]@).len() by {
            assert(sub[i] == stems@[start + i]);
        }
        assert forall|i: int| 0 <= i < batch.offsets@.len() implies #[trigger] batch.offsets@[i]
            + batch.lengths@[i] <= batch.bytes@.len() by {
            lemma_packed_len_grows(sub, i + 1, n as int);
        }
        assert forall|i: int| 0 <= i < n implies #[trigger] batch.stem(i)
            == normalised(encode_utf8(stems@[start + i]@), fold) by {
            lemma_packed_len_grows(sub, i + 1, n as int);
            assert(sub[i] == stems@[start + i]);
            assert(batch.offsets@[i] == packed_len(sub, i));
            assert(batch.stem(i) =~= packed.subrange(
                packed_len(sub, i),
                packed_len(sub, i) + encode_utf8(sub[i]@).len(),
            ));
        }
        batch
    }

    /// The stems at `picked`, in that order, as a batch of their own: the same bytes, with only
    /// the chosen stems addressed.
    pub fn subset(&self, picked: &[u32]) -> (batch: Self)
        requires
            self.wf(),
            forall|i: int| 0 <= i < picked@.len() ==> (#[trigger] picked@[i] as int) < self.count(),
        ensures
            batch.wf(),
            batch.count() == picked@.len(),
            batch.bytes@ == self.bytes@,
            forall|i: int| 0 <= i < picked@.len() ==> #[trigger] batch.stem(i) == self.stem(picked@[i] as int),
    {
        let mut offsets: Vec<u32> = Vec::new();
        let mut lengths: Vec<u32> = Vec::new();
        let mut i: usize = 0;
        while i < picked.len()
            invariant
                self.wf(),
                i <= picked@.len(),
                forall|k: int| 0 <= k < picked@.len() ==> (#[trigger] picked@[k] as int) < self.count(),
                offsets@.len() == i,
                lengths@.len() == i,
                forall|k: int|
                    0 <= k < i ==> #[trigger] offsets@[k] == self.offsets@[picked@[k] as int]
                        && lengths@[k] == self.lengths@[picked@[k] as int],
            decreases picked@.len() - i,
        {
            let at = picked[i] as usize;
            let ghost before = (offsets@, lengths@);
            offsets.push(self.offsets[at]);
            lengths.push(self.lengths[at]);
            assert forall|k: int| 0 <= k < i + 1 implies #[trigger] offsets@[k] == self.offsets@[picked@[k] as int]
                && lengths@[k] == self.lengths@[picked@[k] as int] by {
                if k < i {
                    assert(before.0[k] == self.offsets@[picked@[k] as int]);
                    assert(before.1[k] == self.lengths@[picked@[k] as int]);
                }
            }
            i = i + 1;
        }
        let batch = StemBatch { bytes: self.bytes.clone(), offsets, lengths };
        assert forall|k: int| 0 <= k < batch.offsets@.len() implies #[trigger] batch.offsets@[k]
            + batch.lengths@[k] <= batch.bytes@.len() by {
            assert(self.offsets@[picked@[k] as int] + self.lengths@[picked@[k] as int]
                <= self.bytes@.len());
        }
        batch
    }

    pub fn len(&self) -> (out: usize)
        ensures
            out == self.count(),
    {
        self.offsets.len()
    }

    pub fn is_empty(&self) -> (out: bool)
        ensures
            out == (self.count() == 0),
    {
        self.offsets.len() == 0
    }

    /// The longest stem in the batch, which decides how many bytes the kernel's inner loop runs.
    pub fn longest(&self) -> (out: u32)
        ensures
            forall|i: int| 0 <= i < self.lengths@.len() ==> #[trigger] self.lengths@[i] <= out,
            self.lengths@.len() == 0 ==> out == 0,
            self.lengths@.len() > 0 ==> exists|i: int|
                0 <= i < self.lengths@.len() && #[trigger] self.lengths@[i] == out,
    {
        let mut best: u32 = 0;
        let mut i: usize = 0;
        while i < self.lengths.len()
            invariant
                i <= self.lengths@.len(),
                forall|j: int| 0 <= j < i ==> #[trigger] self.lengths@[j] <= best,
                i == 0 ==> best == 0,
                i > 0 ==> exists|j: int| 0 <= j < i && #[trigger] self.lengths@[j] == best,
            decreases self.lengths@.len() - i,
        {
            if self.lengths[i] > best || i == 0 {
                best = self.lengths[i];
            }
            i = i + 1;
        }
        best
    }
}

/// The running total of stem lengths only grows.
pub proof fn lemma_packed_len_grows(stems: Seq<String>, a: int, b: int)
    requires
        0 <= a <= b <= stems.len(),
    ensures
        packed_len(stems, a) <= packed_len(stems, b),
        packed_len(stems, a) >= 0,
    decreases b - a,
{
    lemma_packed_len_nonneg(stems, a);
    if a < b {
        lemma_packed_len_grows(stems, a, b - 1);
    }
}

/// No running total is negative.
pub proof fn lemma_packed_len_nonneg(stems: Seq<String>, a: int)
    ensures
        packed_len(stems, a) >= 0,
    decreases a,
{
    if a > 0 {
        lemma_packed_len_nonneg(stems, a - 1);
    }
}

/// The peeled set, as a backend needs to see it: a sorted list and the two bitmaps over it.
#[derive(Clone, Copy)]
pub struct PeeledSet<'a> {
    pub hashes: &'a [u64],
    pub coarse: &'a [u64],
    pub fine: &'a [u64],
    pub coarse_bits: u32,
    pub fine_bits: u32,
}

impl<'a> PeeledSet<'a> {
    /// Widths in range, bitmaps of the size their widths need, and the list in order.
    pub open spec fn wf(&self) -> bool {
        &&& 6 <= self.coarse_bits <= 32
        &&& 6 <= self.fine_bits <= 30
        &&& self.coarse@.len() == words_for(self.coarse_bits)
        &&& self.fine@.len() == words_for(self.fine_bits)
        &&& ascending(self.hashes@)
    }

    /// Whether a hash gets through both bitmaps and is in the list: what a sweep reports.
    pub open spec fn admits(&self, hash: u64) -> bool {
        &&& has_bit(self.coarse@, coarse_slot(hash, self.coarse_bits))
        &&& has_bit(self.fine@, fine_slot(hash, self.coarse_bits, self.fine_bits))
        &&& self.hashes@.contains(hash)
    }
}

/// What the sweep wants done.
pub struct SweepRequest<'a> {
    pub stems: &'a StemBatch,
    /// The hash state each beginning leaves behind, precomputed on the host.
    pub openings: &'a [u64],
    /// Whether the bare stem -- no beginning at all -- is a candidate too.
    pub bare: bool,
    pub peeled: PeeledSet<'a>,
}

impl<'a> SweepRequest<'a> {
    /// A request whose hits can be packed: stem and opening indices fit their 32 bits.
    pub open spec fn wf(&self) -> bool {
        &&& self.stems.wf()
        &&& self.stems.count() <= u32::MAX
        &&& self.openings@.len() < u32::MAX
        &&& self.peeled.wf()
    }

    /// How many forward hashes this request stands for, for the counter the search reports.
    pub fn forward(&self) -> (out: u64)
        requires
            self.openings@.len() < u64::MAX,
            self.stems.count() * (self.openings@.len() + if self.bare { 1int } else { 0int })
                <= u64::MAX,
        ensures
            out == self.stems.count() * (self.openings@.len() + if self.bare { 1int } else { 0int }),
    {
        let stems = self.stems.len() as u64;
        let widths = self.openings.len() as u64 + if self.bare { 1u64 } else { 0u64 };
        stems * widths
    }
}

/// Peeling a batch of endings off every wanted id: the backward half.
pub struct PeelRequest<'a> {
    /// Every wanted id, each already given both its spellings by the caller.
    pub spellings: &'a [u64],
    /// The endings of this batch, folded and laid flat, exactly as stems are.
    pub endings: &'a StemBatch,
    /// Whether the un-peeled spelling itself belongs in the result.
    pub no_ending: bool,
}

impl<'a> PeelRequest<'a> {
    /// How many rows the answer has: one per ending, and one more for the un-peeled spelling.
    pub open spec fn rows(&self) -> int {
        self.endings.count() + if self.no_ending { 1int } else { 0int }
    }

    pub open spec fn wf(&self) -> bool {
        &&& self.endings.wf()
        &&& self.spellings@.len() * self.rows() <= usize::MAX
    }

    /// How many hashes the peel produces.
    pub fn count(&self) -> (out: usize)
        requires
            self.endings.count() < usize::MAX,
            self.spellings@.len() * self.rows() <= usize::MAX,
        ensures
            out == self.spellings@.len() * self.rows(),
    {
        let rows = self.endings.len() + if self.no_ending { 1usize } else { 0usize };
        self.spellings.len() * rows
    }
}

/// Something a device answers the sweep with.
///
/// Every method may decline: declining is how a device says the batch is bigger than its memory,
/// or that its driver refused the kernel, and the only correct response is to ask somebody else.
/// What a device says when it does answer is not taken on trust: [`crate::adapters::Preferred`]
/// holds its sweeps against the processor's on a sample before using them.
pub trait Device {
    /// What to print when a run says which device it used.
    fn name(&self) -> String;

    /// The forward sweep: every stem against every beginning, reporting what reached the set.
    fn sweep(&self, request: &SweepRequest) -> (out: Result<Vec<Hit>, Unsupported>)
        requires
            request.wf(),
    ;

    /// The backward peel, ending-major.
    fn peel(&self, request: &PeelRequest) -> (out: Result<Vec<u64>, Unsupported>)
        requires
            request.wf(),
    ;
}

/// Something whose answer to the sweep is the answer: the processor's.
///
/// Every method may decline, and a backend that declines is asked again of the processor. What a
/// backend says when it does answer is the same answer the processor gives: the same hits, in
/// whatever order, and the same peeled hashes, in order.
pub trait Backend {
    /// What to print when a run says which backend it used.
    fn name(&self) -> String;

    /// The forward sweep: every stem against every beginning, reporting what reached the set.
    fn sweep(&self, request: &SweepRequest) -> (out: Result<Vec<Hit>, Unsupported>)
        requires
            request.wf(),
        ensures
            out matches Ok(hits) ==> hits@.to_multiset() == crate::adapters::cpu::sweep_hits(
                request,
                request.stems.count(),
            ).to_multiset(),
    ;

    /// The backward peel, ending-major: row zero the un-peeled spellings when they were asked
    /// for, then one row per ending.
    fn peel(&self, request: &PeelRequest) -> (out: Result<Vec<u64>, Unsupported>)
        requires
            request.wf(),
        ensures
            out matches Ok(peeled) ==> peeled@ == crate::adapters::cpu::peel_rows(request),
    ;
}

} // verus!
