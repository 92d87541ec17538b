//! A membership test over the ids still unnamed, in two stages.
//!
//! Nearly every candidate is a miss, so the first question asked of one has to be cheap. Both
//! stages are bitmaps read at disjoint parts of the id, which makes them independent: a miss
//! usually stops at the small one, which stays in cache, and only a few candidates in ten
//! thousand ever reach the map behind it.

use vstd::arithmetic::power2::{lemma2_to64, pow2};
use vstd::prelude::*;

verus! {

/// How the two stages are sized, in bits of the id each is indexed by.
pub const COARSE_BITS: u32 = 24;

/// See [`COARSE_BITS`].
pub const FINE_BITS: u32 = 26;

/// The low `bits` bits of an id: where it lands in the coarse bitmap.
pub open spec fn coarse_slot(id: u64, bits: u32) -> u64 {
    id & (((1u64 << bits) - 1) as u64)
}

/// The `fine_bits` bits of an id above the coarse ones: where it lands in the fine bitmap.
pub open spec fn fine_slot(id: u64, coarse_bits: u32, fine_bits: u32) -> u64 {
    (id >> coarse_bits) & (((1u64 << fine_bits) - 1) as u64)
}

/// Whether a bitmap has the bit for `slot` set.
pub open spec fn has_bit(words: Seq<u64>, slot: u64) -> bool {
    words[(slot >> 6u64) as int] & (1u64 << (slot & 63u64)) != 0
}

/// How many 64-bit words a bitmap of `bits` bits of index needs.
pub open spec fn words_for(bits: u32) -> nat {
    pow2((bits - 6) as nat)
}

/// Whether some id of `ids` lands on `slot` of the coarse bitmap.
pub open spec fn coarse_taken(ids: Seq<u64>, bits: u32, slot: u64) -> bool {
    exists|k: int| 0 <= k < ids.len() && coarse_slot(#[trigger] ids[k], bits) == slot
}

/// Whether some id of `ids` lands on `slot` of the fine bitmap.
pub open spec fn fine_taken(ids: Seq<u64>, coarse_bits: u32, fine_bits: u32, slot: u64) -> bool {
    exists|k: int| 0 <= k < ids.len() && fine_slot(#[trigger] ids[k], coarse_bits, fine_bits) == slot
}

pub struct Filter {
    coarse: Vec<u64>,
    fine: Vec<u64>,
    coarse_bits: u32,
    fine_bits: u32,
}

/// The id's slot never runs past its bitmap.
proof fn lemma_slot_in_range(slot: u64, bits: u32)
    requires
        6 <= bits <= 32,
        slot < (1u64 << bits),
    ensures
        (slot >> 6u64) < (1u64 << ((bits - 6) as u64)),
{
    assert((slot >> 6u64) < (1u64 << ((bits - 6) as u64))) by (bit_vector)
        requires
            6 <= bits <= 32,
            slot < (1u64 << bits),
    ;
}

proof fn lemma_slots_bounded(id: u64, coarse_bits: u32, fine_bits: u32)
    requires
        6 <= coarse_bits <= 32,
        6 <= fine_bits <= 32,
    ensures
        coarse_slot(id, coarse_bits) < (1u64 << coarse_bits),
        fine_slot(id, coarse_bits, fine_bits) < (1u64 << fine_bits),
{
    assert(id & (((1u64 << coarse_bits) - 1) as u64) < (1u64 << coarse_bits)) by (bit_vector)
        requires
            6 <= coarse_bits <= 32,
    ;
    let shifted = id >> coarse_bits;
    assert(shifted & (((1u64 << fine_bits) - 1) as u64) < (1u64 << fine_bits)) by (bit_vector)
        requires
            6 <= fine_bits <= 32,
    ;
}

/// A mask of `bits` low bits can be written as `(1 << bits) - 1` without underflow.
proof fn lemma_mask_ok(bits: u32)
    requires
        bits <= 32,
    ensures
        (1u64 << bits) >= 1,
{
    assert((1u64 << bits) >= 1) by (bit_vector)
        requires
            bits <= 32,
    ;
}

/// Setting the bit for one slot sets that bit and no other.
proof fn lemma_set_bit(word: u64, set: u64, probe: u64)
    requires
        set < 64,
        probe < 64,
    ensures
        ((word | (1u64 << set)) & (1u64 << probe) != 0) == (probe == set || word & (1u64 << probe)
            != 0),
{
    assert(((word | (1u64 << set)) & (1u64 << probe) != 0) == (probe == set || word & (1u64
        << probe) != 0)) by (bit_vector)
        requires
            set < 64,
            probe < 64,
    ;
}

/// Two slots in the same word at the same bit are the same slot.
proof fn lemma_same_slot(a: u64, b: u64)
    ensures
        (a >> 6u64 == b >> 6u64 && a & 63u64 == b & 63u64) ==> a == b,
        a & 63u64 < 64,
{
    assert((a >> 6u64 == b >> 6u64 && a & 63u64 == b & 63u64) ==> a == b) by (bit_vector);
    assert(a & 63u64 < 64) by (bit_vector);
}

/// The size in words of a bitmap indexed by `bits` bits, and that it is the same as the spec's.
proof fn lemma_words(bits: u32)
    requires
        6 <= bits <= 32,
    ensures
        (1u64 << ((bits - 6) as u64)) as nat == words_for(bits),
        (1u64 << ((bits - 6) as u64)) <= 0x400_0000,
{
    lemma2_to64();
    assert((1u64 << ((bits - 6) as u64)) <= 0x400_0000) by (bit_vector)
        requires
            6 <= bits <= 32,
    ;
    let e = (bits - 6) as u64;
    assert(1u64 << e == pow2(e as nat)) by {
        vstd::bits::lemma_u64_shl_is_mul(1u64, e);
        vstd::arithmetic::power2::lemma_pow2(e as nat);
        vstd::arithmetic::power::lemma_pow1(2);
    };
}

/// Sets the bit for `slot` in `words`, and says exactly which bits are now set.
fn set_bit(words: &mut Vec<u64>, slot: u64)
    requires
        (slot >> 6u64) < old(words)@.len(),
    ensures
        final(words)@.len() == old(words)@.len(),
        forall|probe: u64|
            (probe >> 6u64) < old(words)@.len() ==> #[trigger] has_bit(final(words)@, probe) == (
            probe == slot || has_bit(old(words)@, probe)),
{
    let ghost before = words@;
    let _n = words.len();
    let at = (slot >> 6u64) as usize;
    proof {
        lemma_same_slot(slot, slot);
    }
    let bit = slot & 63u64;
    let updated = words[at] | (1u64 << bit);
    words.set(at, updated);
    assert forall|probe: u64| (probe >> 6u64) < before.len() implies #[trigger] has_bit(
        words@,
        probe,
    ) == (probe == slot || has_bit(before, probe)) by {
        lemma_same_slot(probe, slot);
        let pw = (probe >> 6u64) as int;
        if pw == at as int {
            lemma_set_bit(before[at as int], bit, probe & 63u64);
            assert(words@[pw] == before[at as int] | (1u64 << bit));
        } else {
            assert(words@[pw] == before[pw]);
            assert(probe != slot);
        }
    }
}

/// The two slots of a hash index inside bitmaps of the widths given, and the masks can be formed.
pub proof fn lemma_bitmap_index(hash: u64, coarse_bits: u32, fine_bits: u32)
    requires
        6 <= coarse_bits <= 32,
        6 <= fine_bits <= 30,
    ensures
        (1u64 << coarse_bits) >= 1,
        (1u64 << fine_bits) >= 1,
        (coarse_slot(hash, coarse_bits) >> 6u64) < words_for(coarse_bits),
        (fine_slot(hash, coarse_bits, fine_bits) >> 6u64) < words_for(fine_bits),
        coarse_slot(hash, coarse_bits) & 63u64 < 64,
        fine_slot(hash, coarse_bits, fine_bits) & 63u64 < 64,
{
    lemma_mask_ok(coarse_bits);
    lemma_mask_ok(fine_bits);
    lemma_slots_bounded(hash, coarse_bits, fine_bits);
    lemma_slot_in_range(coarse_slot(hash, coarse_bits), coarse_bits);
    lemma_slot_in_range(fine_slot(hash, coarse_bits, fine_bits), fine_bits);
    lemma_words(coarse_bits);
    lemma_words(fine_bits);
    lemma_same_slot(coarse_slot(hash, coarse_bits), 0);
    lemma_same_slot(fine_slot(hash, coarse_bits, fine_bits), 0);
}

impl Filter {
    /// The filter's shape holds: widths in range and bitmaps of the size their widths need.
    pub open spec fn wf(&self) -> bool {
        &&& 6 <= self.coarse_bits_spec() <= 32
        &&& 6 <= self.fine_bits_spec() <= 30
        &&& self.coarse_words().len() == words_for(self.coarse_bits_spec())
        &&& self.fine_words().len() == words_for(self.fine_bits_spec())
    }

    pub closed spec fn coarse_bits_spec(&self) -> u32 {
        self.coarse_bits
    }

    pub closed spec fn fine_bits_spec(&self) -> u32 {
        self.fine_bits
    }

    pub closed spec fn coarse_words(&self) -> Seq<u64> {
        self.coarse@
    }

    pub closed spec fn fine_words(&self) -> Seq<u64> {
        self.fine@
    }

    /// What [`Filter::may_hold`] answers for an id.
    pub open spec fn holds(&self, id: u64) -> bool {
        &&& has_bit(self.coarse_words(), coarse_slot(id, self.coarse_bits_spec()))
        &&& has_bit(
            self.fine_words(),
            fine_slot(id, self.coarse_bits_spec(), self.fine_bits_spec()),
        )
    }

    /// Whether this filter says yes to an id exactly when some id of `ids` shares both of its
    /// slots: what building it over `ids` leaves.
    pub open spec fn built_over(&self, ids: Seq<u64>) -> bool {
        &&& self.wf()
        &&& forall|id: u64| #[trigger]
            self.holds(id) == (coarse_taken(
                ids,
                self.coarse_bits_spec(),
                coarse_slot(id, self.coarse_bits_spec()),
            ) && fine_taken(
                ids,
                self.coarse_bits_spec(),
                self.fine_bits_spec(),
                fine_slot(id, self.coarse_bits_spec(), self.fine_bits_spec()),
            ))
    }

    /// A filter built over `ids` with the default widths.
    pub fn new(ids: &[u64]) -> (filter: Self)
        ensures
            filter.built_over(ids@),
            filter.wf(),
            filter.coarse_bits_spec() == COARSE_BITS,
            filter.fine_bits_spec() == FINE_BITS,
            forall|id: u64| #[trigger]
                filter.holds(id) == (coarse_taken(ids@, COARSE_BITS, coarse_slot(id, COARSE_BITS))
                    && fine_taken(ids@, COARSE_BITS, FINE_BITS, fine_slot(id, COARSE_BITS, FINE_BITS))),
    {
        Self::with_bits(ids, COARSE_BITS, FINE_BITS)
    }

    /// A filter sized for how much is going into it.
    ///
    /// A bitmap holding far more entries than it has bits says yes to everything, which costs
    /// the whole point of having one. Eight bits per entry, rounded up to a power of two, keeps
    /// the first stage a real question; the width is held between 24 and 32 bits, and the
    /// second stage is given the same again, up to 30.
    pub fn sized(ids: &[u64], count: usize) -> (filter: Self)
        ensures
            filter.built_over(ids@),
            filter.wf(),
            filter.coarse_bits_spec() == sized_bits(count),
            filter.fine_bits_spec() == if sized_bits(count) < 30 { sized_bits(count) } else { 30 },
            forall|id: u64| #[trigger]
                filter.holds(id) == (coarse_taken(
                    ids@,
                    filter.coarse_bits_spec(),
                    coarse_slot(id, filter.coarse_bits_spec()),
                ) && fine_taken(
                    ids@,
                    filter.coarse_bits_spec(),
                    filter.fine_bits_spec(),
                    fine_slot(id, filter.coarse_bits_spec(), filter.fine_bits_spec()),
                )),
    {
        let bits = width_for(count);
        let fine = if bits < 30 { bits } else { 30 };
        Self::with_bits(ids, bits, fine)
    }

    /// A filter over `ids` with the given widths: a bit is set exactly where some id lands.
    pub fn with_bits(ids: &[u64], coarse_bits: u32, fine_bits: u32) -> (filter: Self)
        requires
            6 <= coarse_bits <= 32,
            6 <= fine_bits <= 30,
        ensures
            filter.built_over(ids@),
            filter.wf(),
            filter.coarse_bits_spec() == coarse_bits,
            filter.fine_bits_spec() == fine_bits,
            forall|id: u64| #[trigger]
                filter.holds(id) == (coarse_taken(ids@, coarse_bits, coarse_slot(id, coarse_bits))
                    && fine_taken(ids@, coarse_bits, fine_bits, fine_slot(id, coarse_bits, fine_bits))),
    {
        proof {
            lemma_words(coarse_bits);
            lemma_words(fine_bits);
        }
        let coarse_words = (1u64 << ((coarse_bits - 6) as u64)) as usize;
        let fine_words = (1u64 << ((fine_bits - 6) as u64)) as usize;
        let mut coarse: Vec<u64> = vec![0u64; coarse_words];
        let mut fine: Vec<u64> = vec![0u64; fine_words];
        proof {
            assert forall|slot: u64| (slot >> 6u64) < coarse@.len() implies !#[trigger] has_bit(
                coarse@,
                slot,
            ) by {
                let w = coarse@[(slot >> 6u64) as int];
                assert(w == 0);
                assert(0u64 & (1u64 << (slot & 63u64)) == 0) by (bit_vector);
            }
            assert forall|slot: u64| (slot >> 6u64) < fine@.len() implies !#[trigger] has_bit(
                fine@,
                slot,
            ) by {
                let w = fine@[(slot >> 6u64) as int];
                assert(w == 0);
                assert(0u64 & (1u64 << (slot & 63u64)) == 0) by (bit_vector);
            }
            assert forall|slot: u64| slot < (1u64 << coarse_bits) implies #[trigger] has_bit(
                coarse@,
                slot,
            ) == (exists|k: int| 0 <= k < 0 && coarse_slot(#[trigger] ids@[k], coarse_bits) == slot) by {
                lemma_slot_in_range(slot, coarse_bits);
            }
            assert forall|slot: u64| slot < (1u64 << fine_bits) implies #[trigger] has_bit(
                fine@,
                slot,
            ) == (exists|k: int| 0 <= k < 0 && fine_slot(#[trigger] ids@[k], coarse_bits, fine_bits) == slot) by {
                lemma_slot_in_range(slot, fine_bits);
            }
        }
        let mut i: usize = 0;
        while i < ids.len()
            invariant
                6 <= coarse_bits <= 32,
                6 <= fine_bits <= 30,
                i <= ids.len(),
                coarse@.len() == words_for(coarse_bits),
                fine@.len() == words_for(fine_bits),
                coarse@.len() == (1u64 << ((coarse_bits - 6) as u64)),
                fine@.len() == (1u64 << ((fine_bits - 6) as u64)),
                forall|slot: u64|
                    slot < (1u64 << coarse_bits) ==> #[trigger] has_bit(coarse@, slot) == (exists|
                        k: int,
                    | 0 <= k < i && coarse_slot(#[trigger] ids@[k], coarse_bits) == slot),
                forall|slot: u64|
                    slot < (1u64 << fine_bits) ==> #[trigger] has_bit(fine@, slot) == (exists|
                        k: int,
                    | 0 <= k < i && fine_slot(#[trigger] ids@[k], coarse_bits, fine_bits) == slot),
                forall|slot: u64|
                    (slot >> 6u64) < coarse@.len() && slot >= (1u64 << coarse_bits) ==> !#[trigger] has_bit(coarse@, slot),
                forall|slot: u64|
                    (slot >> 6u64) < fine@.len() && slot >= (1u64 << fine_bits) ==> !#[trigger] has_bit(fine@, slot),
            decreases ids.len() - i,
        {
            let id = ids[i];
            proof {
                lemma_mask_ok(coarse_bits);
                lemma_mask_ok(fine_bits);
            }
            let c = id & ((1u64 << coarse_bits) - 1);
            let f = (id >> coarse_bits) & ((1u64 << fine_bits) - 1);
            proof {
                lemma_slots_bounded(id, coarse_bits, fine_bits);
                lemma_slot_in_range(c, coarse_bits);
                lemma_slot_in_range(f, fine_bits);
            }
            let ghost old_coarse = coarse@;
            let ghost old_fine = fine@;
            set_bit(&mut coarse, c);
            set_bit(&mut fine, f);
            proof {
                assert forall|slot: u64| slot < (1u64 << coarse_bits) implies #[trigger] has_bit(
                    coarse@,
                    slot,
                ) == (exists|k: int| 0 <= k < i + 1 && coarse_slot(#[trigger] ids@[k], coarse_bits) == slot) by {
                    lemma_slot_in_range(slot, coarse_bits);
                    if slot == c {
                        assert(coarse_slot(ids@[i as int], coarse_bits) == slot);
                    }
                    if has_bit(coarse@, slot) && slot != c {
                        assert(has_bit(old_coarse, slot));
                    }
                }
                assert forall|slot: u64| slot < (1u64 << fine_bits) implies #[trigger] has_bit(
                    fine@,
                    slot,
                ) == (exists|k: int| 0 <= k < i + 1 && fine_slot(#[trigger] ids@[k], coarse_bits, fine_bits) == slot) by {
                    lemma_slot_in_range(slot, fine_bits);
                    if slot == f {
                        assert(fine_slot(ids@[i as int], coarse_bits, fine_bits) == slot);
                    }
                    if has_bit(fine@, slot) && slot != f {
                        assert(has_bit(old_fine, slot));
                    }
                }
            }
            i = i + 1;
        }
        let filter = Filter { coarse, fine, coarse_bits, fine_bits };
        proof {
            assert forall|id: u64| #[trigger]
                filter.holds(id) == (coarse_taken(ids@, coarse_bits, coarse_slot(id, coarse_bits))
                    && fine_taken(ids@, coarse_bits, fine_bits, fine_slot(id, coarse_bits, fine_bits))) by {
                lemma_slots_bounded(id, coarse_bits, fine_bits);
            }
        }
        filter
    }

    /// Where an id lands in each of the two bitmaps.
    pub fn slots(&self, id: u64) -> (out: (u64, u64))
        requires
            self.wf(),
        ensures
            out.0 == coarse_slot(id, self.coarse_bits_spec()),
            out.1 == fine_slot(id, self.coarse_bits_spec(), self.fine_bits_spec()),
            (out.0 >> 6u64) < self.coarse_words().len(),
            (out.1 >> 6u64) < self.fine_words().len(),
    {
        proof {
            lemma_mask_ok(self.coarse_bits);
            lemma_mask_ok(self.fine_bits);
        }
        let coarse = id & ((1u64 << self.coarse_bits) - 1);
        let fine = (id >> self.coarse_bits) & ((1u64 << self.fine_bits) - 1);
        proof {
            lemma_slots_bounded(id, self.coarse_bits, self.fine_bits);
            lemma_slot_in_range(coarse, self.coarse_bits);
            lemma_slot_in_range(fine, self.fine_bits);
            lemma_words(self.coarse_bits);
            lemma_words(self.fine_bits);
        }
        (coarse, fine)
    }

    /// Whether the id may be one of those the filter was built over. Never false for one that is.
    pub fn may_hold(&self, id: u64) -> (out: bool)
        requires
            self.wf(),
        ensures
            out == self.holds(id),
    {
        let (coarse, fine) = self.slots(id);
        let _c = self.coarse.len();
        let _f = self.fine.len();
        proof {
            lemma_same_slot(coarse, coarse);
            lemma_same_slot(fine, fine);
        }
        if self.coarse[(coarse >> 6u64) as usize] & (1u64 << (coarse & 63u64)) == 0 {
            return false;
        }
        self.fine[(fine >> 6u64) as usize] & (1u64 << (fine & 63u64)) != 0
    }

    /// The two bitmaps and their widths, as a backend needs to see them.
    pub fn parts(&self) -> (out: (&[u64], &[u64], u32, u32))
        ensures
            out.0@ == self.coarse_words(),
            out.1@ == self.fine_words(),
            out.2 == self.coarse_bits_spec(),
            out.3 == self.fine_bits_spec(),
    {
        (self.coarse.as_slice(), self.fine.as_slice(), self.coarse_bits, self.fine_bits)
    }
}

/// A filter never turns away an id it was built over: whatever it rejects is certainly not
/// wanted, so the map behind it is only ever spared work, never asked less.
pub proof fn law_never_rejects_a_held_id(filter: &Filter, ids: Seq<u64>, id: u64)
    requires
        filter.built_over(ids),
        ids.contains(id),
    ensures
        filter.holds(id),
{
    let k = choose|k: int| 0 <= k < ids.len() && ids[k] == id;
    assert(coarse_taken(ids, filter.coarse_bits_spec(), coarse_slot(id, filter.coarse_bits_spec())));
    assert(fine_taken(
        ids,
        filter.coarse_bits_spec(),
        filter.fine_bits_spec(),
        fine_slot(id, filter.coarse_bits_spec(), filter.fine_bits_spec()),
    ));
}

/// The width [`Filter::sized`] picks for `count` entries: the smallest number of bits whose
/// bitmap has at least eight bits per entry, held between 24 and 32.
pub open spec fn sized_bits(count: usize) -> u32 {
    let wanted = 8 * if count == 0 { 1 } else { count as int };
    if pow2(24) >= wanted {
        24
    } else {
        sized_bits_from(25, wanted)
    }
}

/// The smallest width from `bits` up to 32 whose bitmap reaches `wanted` bits.
pub open spec fn sized_bits_from(bits: u32, wanted: int) -> u32
    decreases 32 - bits,
{
    if bits >= 32 || pow2(bits as nat) >= wanted {
        bits
    } else {
        sized_bits_from((bits + 1) as u32, wanted)
    }
}

/// Computes [`sized_bits`].
fn width_for(count: usize) -> (bits: u32)
    ensures
        bits == sized_bits(count),
        24 <= bits <= 32,
{
    let entries: u64 = if count == 0 { 1 } else { count as u64 };
    let ghost wanted = 8 * entries as int;
    // 2^(bits - 3): the bitmap reaches eight bits per entry when this reaches the entry count.
    let mut reach: u64 = 0x20_0000;
    let mut bits: u32 = 24;
    proof {
        lemma2_to64();
    }
    if reach >= entries {
        return 24;
    }
    bits = 25;
    reach = 0x40_0000;
    while bits < 32 && reach < entries
        invariant
            25 <= bits <= 32,
            reach as int * 8 == pow2(bits as nat),
            reach as int == pow2((bits - 3) as nat),
            pow2(29) == 0x2000_0000,
            reach <= 0x2000_0000,
            wanted == 8 * entries as int,
            wanted == 8 * if count == 0 { 1 } else { count as int },
            pow2(24) < wanted,
            sized_bits(count) == sized_bits_from(bits, wanted),
        decreases 32 - bits,
    {
        proof {
            vstd::arithmetic::power2::lemma_pow2_unfold((bits + 1) as nat);
            vstd::arithmetic::power2::lemma_pow2_unfold((bits - 2) as nat);
            if bits - 2 < 29 {
                vstd::arithmetic::power2::lemma_pow2_strictly_increases((bits - 2) as nat, 29);
            }
        }
        bits = bits + 1;
        reach = reach * 2;
    }
    bits
}

} // verus!
