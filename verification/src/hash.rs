//! The hash, as a fold over bytes that can be run forwards and backwards.
//!
//! A candidate is a beginning, a stem and an ending. Folding lets the beginning be hashed once
//! for a whole run and the stem once per beginning, so an ending costs only the bytes it is long.
//! Because the multiplier is odd, every step can be undone, which is what lets a search peel an
//! ending off a wanted id instead of appending it to every stem.

use vstd::arithmetic::div_mod::{
    lemma_mod_multiples_vanish, lemma_mul_mod_noop_left, lemma_small_mod,
};
use vstd::arithmetic::mul::lemma_mul_is_associative;
use vstd::prelude::*;
use vstd::utf8::{encode_scalar, encode_utf8};
use vstd::wrapping::u64_specs;

use crate::{BASIS, ID_MASK, PRIME, PRIME_INVERSE};

verus! {

/// The normalisation applied to every byte before it is hashed: ASCII upper case is lowered,
/// and, when `fold` is set, a backslash becomes a forward slash.
pub open spec fn normal(byte: u8, fold: bool) -> u8 {
    if 65 <= byte && byte <= 90 {
        (byte + 32) as u8
    } else if fold && byte == 92 {
        47u8
    } else {
        byte
    }
}

/// One forward step of FNV-1a: mix the byte in, then multiply, modulo 2^64.
pub open spec fn mix(hash: u64, byte: u8) -> u64 {
    u64_specs::wrapping_mul(hash ^ (byte as u64), PRIME)
}

/// One backward step: multiply by the inverse, then take the byte back out.
pub open spec fn unmix(hash: u64, byte: u8) -> u64 {
    u64_specs::wrapping_mul(hash, PRIME_INVERSE) ^ (byte as u64)
}

/// The hash state after feeding `text`, normalised, into `hash`, first byte first.
pub open spec fn fold_bytes(hash: u64, text: Seq<u8>, fold: bool) -> u64
    decreases text.len(),
{
    if text.len() == 0 {
        hash
    } else {
        mix(fold_bytes(hash, text.drop_last(), fold), normal(text.last(), fold))
    }
}

/// The hash state after taking `text`, normalised, back off `hash`, last byte first.
pub open spec fn peel_bytes(hash: u64, text: Seq<u8>, fold: bool) -> u64
    decreases text.len(),
{
    if text.len() == 0 {
        hash
    } else {
        peel_bytes(unmix(hash, normal(text.last(), fold)), text.drop_last(), fold)
    }
}

/// The hash of a whole string, as its UTF-8 bytes.
pub open spec fn hash_of(text: Seq<char>, fold: bool) -> u64 {
    fold_bytes(BASIS, encode_utf8(text), fold)
}

/// The id a name has in the loader: its hash with bit 63 cleared.
pub open spec fn id_spec(text: Seq<char>) -> u64 {
    hash_of(text, true) & ID_MASK
}

/// `PRIME_INVERSE` is the inverse of `PRIME` modulo 2^64.
pub proof fn lemma_inverse()
    ensures
        (PRIME as int) * (PRIME_INVERSE as int) == 887285111055int * 0x1_0000_0000_0000_0000int + 1,
{
}

/// Multiplying by the prime and then by its inverse, modulo 2^64, gives back what was there.
proof fn lemma_multiply_back(x: u64)
    ensures
        u64_specs::wrapping_mul(u64_specs::wrapping_mul(x, PRIME), PRIME_INVERSE) == x,
        u64_specs::wrapping_mul(u64_specs::wrapping_mul(x, PRIME_INVERSE), PRIME) == x,
{
    let m: int = 0x1_0000_0000_0000_0000;
    let p = PRIME as int;
    let q = PRIME_INVERSE as int;
    let k: int = 887285111055;
    lemma_inverse();
    lemma_mul_mod_noop_left(x as int * p, q, m);
    lemma_mul_is_associative(x as int, p, q);
    assert(x as int * (p * q) == m * (x as int * k) + x as int) by (nonlinear_arith)
        requires
            p * q == k * m + 1,
    ;
    lemma_mod_multiples_vanish(x as int * k, x as int, m);
    lemma_small_mod(x as nat, m as nat);
    lemma_mul_mod_noop_left(x as int * q, p, m);
    lemma_mul_is_associative(x as int, q, p);
    assert(x as int * (q * p) == m * (x as int * k) + x as int) by (nonlinear_arith)
        requires
            p * q == k * m + 1,
    ;
}

/// One backward step undoes one forward step.
pub proof fn lemma_unmix_mix(hash: u64, byte: u8)
    ensures
        unmix(mix(hash, byte), byte) == hash,
{
    let x = hash ^ (byte as u64);
    lemma_multiply_back(x);
    assert(x ^ (byte as u64) == hash) by (bit_vector)
        requires
            x == hash ^ (byte as u64),
    ;
}

/// One forward step undoes one backward step.
pub proof fn lemma_mix_unmix(hash: u64, byte: u8)
    ensures
        mix(unmix(hash, byte), byte) == hash,
{
    let y = u64_specs::wrapping_mul(hash, PRIME_INVERSE);
    lemma_multiply_back(hash);
    assert((y ^ (byte as u64)) ^ (byte as u64) == y) by (bit_vector);
}

/// Feeding `a` then `b` is feeding `a + b`: a name can be hashed in pieces.
pub proof fn lemma_fold_concat(hash: u64, a: Seq<u8>, b: Seq<u8>, fold: bool)
    ensures
        fold_bytes(hash, a + b, fold) == fold_bytes(fold_bytes(hash, a, fold), b, fold),
    decreases b.len(),
{
    if b.len() == 0 {
        assert(a + b =~= a);
    } else {
        lemma_fold_concat(hash, a, b.drop_last(), fold);
        assert((a + b).drop_last() =~= a + b.drop_last());
        assert((a + b).last() == b.last());
    }
}

/// Peeling `a + b` is peeling `b` and then `a`.
pub proof fn lemma_peel_concat(hash: u64, a: Seq<u8>, b: Seq<u8>, fold: bool)
    ensures
        peel_bytes(hash, a + b, fold) == peel_bytes(peel_bytes(hash, b, fold), a, fold),
    decreases b.len(),
{
    if b.len() == 0 {
        assert(a + b =~= a);
    } else {
        assert((a + b).drop_last() =~= a + b.drop_last());
        assert((a + b).last() == b.last());
        lemma_peel_concat(unmix(hash, normal(b.last(), fold)), a, b.drop_last(), fold);
    }
}

/// Peeling a text off a hash that it was fed into gives back the hash from before it.
pub proof fn lemma_peel_fold(hash: u64, text: Seq<u8>, fold: bool)
    ensures
        peel_bytes(fold_bytes(hash, text, fold), text, fold) == hash,
    decreases text.len(),
{
    if text.len() > 0 {
        let before = fold_bytes(hash, text.drop_last(), fold);
        lemma_unmix_mix(before, normal(text.last(), fold));
        lemma_peel_fold(hash, text.drop_last(), fold);
    }
}

/// Feeding a text back onto a hash that it was peeled from gives back that hash.
pub proof fn lemma_fold_peel(hash: u64, text: Seq<u8>, fold: bool)
    ensures
        fold_bytes(peel_bytes(hash, text, fold), text, fold) == hash,
    decreases text.len(),
{
    if text.len() > 0 {
        let after = unmix(hash, normal(text.last(), fold));
        lemma_fold_peel(after, text.drop_last(), fold);
        lemma_mix_unmix(hash, normal(text.last(), fold));
    }
}

/// The UTF-8 encoding of a concatenation is the concatenation of the encodings.
pub proof fn lemma_encode_concat(a: Seq<char>, b: Seq<char>)
    ensures
        encode_utf8(a + b) == encode_utf8(a) + encode_utf8(b),
    decreases a.len(),
{
    if a.len() == 0 {
        assert(a + b =~= b);
        assert(encode_utf8(a) =~= Seq::<u8>::empty());
        assert(encode_utf8(a) + encode_utf8(b) =~= encode_utf8(b));
    } else {
        assert((a + b).drop_first() =~= a.drop_first() + b);
        assert((a + b)[0] == a[0]);
        lemma_encode_concat(a.drop_first(), b);
        assert(encode_scalar(a[0] as u32) + (encode_utf8(a.drop_first()) + encode_utf8(b))
            =~= (encode_scalar(a[0] as u32) + encode_utf8(a.drop_first())) + encode_utf8(b));
    }
}

/// Hashing a concatenation of strings is feeding each one's bytes in turn.
pub proof fn lemma_hash_concat(hash: u64, a: Seq<char>, b: Seq<char>, fold: bool)
    ensures
        fold_bytes(hash, encode_utf8(a + b), fold) == fold_bytes(
            fold_bytes(hash, encode_utf8(a), fold),
            encode_utf8(b),
            fold,
        ),
{
    lemma_encode_concat(a, b);
    lemma_fold_concat(hash, encode_utf8(a), encode_utf8(b), fold);
}

/// Normalising twice is normalising once.
pub proof fn law_normalising_twice_is_normalising_once(byte: u8, fold: bool)
    ensures
        normal(normal(byte, fold), fold) == normal(byte, fold),
{
}

/// Two texts whose bytes normalise to the same thing hash the same, whatever state they are
/// fed into: a name hashes the same however it is cased, and, folding, however it is slashed.
pub proof fn law_normalised_spellings_hash_alike(hash: u64, a: Seq<u8>, b: Seq<u8>, fold: bool)
    requires
        a.len() == b.len(),
        forall|i: int| 0 <= i < a.len() ==> normal(#[trigger] a[i], fold) == normal(b[i], fold),
    ensures
        fold_bytes(hash, a, fold) == fold_bytes(hash, b, fold),
    decreases a.len(),
{
    if a.len() > 0 {
        assert forall|i: int| 0 <= i < a.drop_last().len() implies normal(
            #[trigger] a.drop_last()[i],
            fold,
        ) == normal(b.drop_last()[i], fold) by {
            assert(a.drop_last()[i] == a[i]);
            assert(b.drop_last()[i] == b[i]);
        }
        assert(normal(a[a.len() - 1], fold) == normal(b[b.len() - 1], fold));
        law_normalised_spellings_hash_alike(hash, a.drop_last(), b.drop_last(), fold);
    }
}

/// A character as the hash sees it: an ASCII character normalised as [`normal`] does its byte,
/// and any other character as it stands.
pub open spec fn normal_char(c: char, fold: bool) -> u32 {
    if (c as u32) < 0x80 {
        normal((c as u32) as u8, fold) as u32
    } else {
        c as u32
    }
}

/// Names that normalise alike leave the same state, fed into the same one.
proof fn lemma_names_fold_alike(hash: u64, a: Seq<char>, b: Seq<char>, fold: bool)
    requires
        a.len() == b.len(),
        forall|i: int| 0 <= i < a.len() ==> normal_char(#[trigger] a[i], fold) == normal_char(b[i], fold),
    ensures
        fold_bytes(hash, encode_utf8(a), fold) == fold_bytes(hash, encode_utf8(b), fold),
    decreases a.len(),
{
    if a.len() > 0 {
        let x = a[0];
        let y = b[0];
        let ex = encode_scalar(x as u32);
        let ey = encode_scalar(y as u32);
        assert(encode_utf8(a) == ex + encode_utf8(a.drop_first()));
        assert(encode_utf8(b) == ey + encode_utf8(b.drop_first()));
        lemma_fold_concat(hash, ex, encode_utf8(a.drop_first()), fold);
        lemma_fold_concat(hash, ey, encode_utf8(b.drop_first()), fold);
        assert(normal_char(x, fold) == normal_char(y, fold));
        let vx: u32 = x as u32;
        let vy: u32 = y as u32;
        if vx >= 0x80 || vy >= 0x80 {
            if vx < 0x80 {
                assert(normal(vx as u8, fold) < 0x80);
            }
            if vy < 0x80 {
                assert(normal(vy as u8, fold) < 0x80);
            }
            assert(vx == vy);
            assert(ex == ey);
        } else {
            assert(vx & 0x7F == vx) by (bit_vector)
                requires
                    vx < 0x80,
            ;
            assert(vy & 0x7F == vy) by (bit_vector)
                requires
                    vy < 0x80,
            ;
            assert(ex == seq![vx as u8]);
            assert(ey == seq![vy as u8]);
            assert(ex.drop_last() =~= Seq::<u8>::empty());
            assert(ey.drop_last() =~= Seq::<u8>::empty());
            assert(fold_bytes(hash, ex, fold) == fold_bytes(hash, ey, fold));
        }
        assert forall|i: int| 0 <= i < a.drop_first().len() implies normal_char(
            #[trigger] a.drop_first()[i],
            fold,
        ) == normal_char(b.drop_first()[i], fold) by {
            assert(a.drop_first()[i] == a[i + 1]);
            assert(b.drop_first()[i] == b[i + 1]);
        }
        lemma_names_fold_alike(fold_bytes(hash, ex, fold), a.drop_first(), b.drop_first(), fold);
    }
}

/// Two names that are the same once ASCII upper case is lowered (and, folding, once every
/// backslash is a slash) hash the same, whatever state they are fed into; so `hash64` of one is
/// `hash64` of the other.
pub proof fn law_normalised_names_hash_alike(hash: u64, a: Seq<char>, b: Seq<char>, fold: bool)
    requires
        a.len() == b.len(),
        forall|i: int| 0 <= i < a.len() ==> normal_char(#[trigger] a[i], fold) == normal_char(b[i], fold),
    ensures
        fold_bytes(hash, encode_utf8(a), fold) == fold_bytes(hash, encode_utf8(b), fold),
        hash_of(a, fold) == hash_of(b, fold),
{
    lemma_names_fold_alike(hash, a, b, fold);
    lemma_names_fold_alike(BASIS, a, b, fold);
}

/// Peeling undoes feeding, and feeding undoes peeling, for any state and any text: the hash
/// runs backwards exactly, which is what the meet-in-the-middle search rests on.
pub proof fn law_peel_and_feed_are_inverse(hash: u64, text: Seq<u8>, fold: bool)
    ensures
        peel_bytes(fold_bytes(hash, text, fold), text, fold) == hash,
        fold_bytes(peel_bytes(hash, text, fold), text, fold) == hash,
{
    lemma_peel_fold(hash, text, fold);
    lemma_fold_peel(hash, text, fold);
}

/// Feeding text in pieces gives the same state as feeding it whole.
pub proof fn law_feeding_in_pieces_is_feeding_whole(hash: u64, a: Seq<u8>, b: Seq<u8>, fold: bool)
    ensures
        fold_bytes(hash, a + b, fold) == fold_bytes(fold_bytes(hash, a, fold), b, fold),
        peel_bytes(hash, a + b, fold) == peel_bytes(peel_bytes(hash, b, fold), a, fold),
{
    lemma_fold_concat(hash, a, b, fold);
    lemma_peel_concat(hash, a, b, fold);
}

/// A byte, normalised. Upper case is lowered; a backslash becomes a slash when `fold` is set.
pub fn normalise(byte: u8, fold: bool) -> (out: u8)
    ensures
        out == normal(byte, fold),
{
    if 65 <= byte && byte <= 90 {
        byte + 32
    } else if fold && byte == 92 {
        47
    } else {
        byte
    }
}

/// The fold, with the normalisation chosen at compile time.
///
/// A const parameter rather than a runtime flag: this runs hundreds of billions of times a pass,
/// and a branch per byte would be paid on every candidate for the sake of the one table that
/// wants the other behaviour.
pub fn feed_with<const FOLD: bool>(hash: u64, text: &[u8]) -> (out: u64)
    ensures
        out == fold_bytes(hash, text@, FOLD),
{
    let mut state = hash;
    let mut i: usize = 0;
    while i < text.len()
        invariant
            i <= text.len(),
            state == fold_bytes(hash, text@.subrange(0, i as int), FOLD),
        decreases text.len() - i,
    {
        let byte = normalise(text[i], FOLD);
        assert(text@.subrange(0, i + 1).drop_last() =~= text@.subrange(0, i as int));
        state = (state ^ (byte as u64)).wrapping_mul(PRIME);
        i = i + 1;
    }
    assert(text@.subrange(0, text.len() as int) =~= text@);
    state
}

/// The fold: lower cased, and backslash folded to forward slash, as it goes.
pub fn feed(hash: u64, text: &[u8]) -> (out: u64)
    ensures
        out == fold_bytes(hash, text@, true),
{
    feed_with::<true>(hash, text)
}

/// The same fold, leaving backslashes alone.
///
/// One table needs this: Black Ops 4's sound entries are named with literal backslashes, and
/// their ids are the hash of exactly that.
pub fn feed_raw(hash: u64, text: &[u8]) -> (out: u64)
    ensures
        out == fold_bytes(hash, text@, false),
{
    feed_with::<false>(hash, text)
}

/// Takes a known text back off a hash, giving the hash from before it.
///
/// The forward step is `h = (h ^ byte) * prime`, so the backward one is
/// `h = (h * prime_inverse) ^ byte`, walking the bytes in reverse.
pub fn peel_with<const FOLD: bool>(hash: u64, text: &[u8]) -> (out: u64)
    ensures
        out == peel_bytes(hash, text@, FOLD),
{
    let mut state = hash;
    let mut i: usize = text.len();
    assert(text@.subrange(0, text.len() as int) =~= text@);
    while i > 0
        invariant
            i <= text.len(),
            peel_bytes(state, text@.subrange(0, i as int), FOLD) == peel_bytes(hash, text@, FOLD),
        decreases i,
    {
        let byte = normalise(text[i - 1], FOLD);
        assert(text@.subrange(0, i as int).drop_last() =~= text@.subrange(0, i - 1));
        state = state.wrapping_mul(PRIME_INVERSE) ^ (byte as u64);
        i = i - 1;
    }
    assert(text@.subrange(0, text.len() as int) =~= text@);
    state
}

/// Takes a known ending back off a hash. The inverse of [`feed`].
pub fn peel(hash: u64, text: &[u8]) -> (out: u64)
    ensures
        out == peel_bytes(hash, text@, true),
{
    peel_with::<true>(hash, text)
}

/// Peeling that matches [`feed_raw`], for the one table whose names keep their backslashes.
pub fn peel_raw(hash: u64, text: &[u8]) -> (out: u64)
    ensures
        out == peel_bytes(hash, text@, false),
{
    peel_with::<false>(hash, text)
}

/// The hash of a whole name.
pub fn hash64(text: &str) -> (out: u64)
    ensures
        out == hash_of(text@, true),
{
    feed(BASIS, text.as_bytes())
}

/// The hash of a whole name, keeping its backslashes.
pub fn hash64_raw(text: &str) -> (out: u64)
    ensures
        out == hash_of(text@, false),
{
    feed_raw(BASIS, text.as_bytes())
}

/// The hash of a name as the loader would hold it.
pub fn id_of(text: &str) -> (out: u64)
    ensures
        out == id_spec(text@),
{
    hash64(text) & ID_MASK
}

} // verus!
