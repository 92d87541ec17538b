//! The scan every search here runs: beginnings and endings against a set of stems, hashed and
//! held up against the ids the loader has that nobody can name.
//!
//! Each search differs only in where its stems, beginnings and endings come from. The scan
//! itself is the same question asked hundreds of billions of times, and it is the same three
//! things that make it affordable: the hash is folded so a beginning costs nothing per stem and
//! an ending costs only the bytes it is long, a candidate meets two bitmaps before it reaches a
//! map, and a name is built into a string only once it has already matched.

use std::collections::HashMap;

use vstd::prelude::*;
use vstd::std_specs::hash::spec_keys_iter;
use vstd::std_specs::iter::IteratorSpec;
use vstd::utf8::encode_utf8;

use crate::adapters::cpu::{
    lemma_peel_rows_contain, lemma_plain_fold_normalised, lemma_sweep_contains, lemma_sweep_distinct, peel_all,
    plain_fold, plain_peel, reported, sweep_from, sweep_stems, Cpu,
};
use crate::filter::{law_never_rejects_a_held_id, Filter};
use crate::hash::{fold_bytes, hash_of, lemma_hash_concat, lemma_peel_fold, peel_bytes};
use crate::ports::backend::{
    ascending, lemma_mark_parts, lemma_mark_shift, mark, normalised, packed_len, Backend,
    PeelRequest, PeeledSet, StemBatch, SweepRequest, BARE_OPENING, PACKED_BYTES,
};
use crate::listing::row_texts;
use crate::text::texts;
use crate::{feed, feed_raw, hash64, BASIS, ID_MASK};

verus! {

broadcast use vstd::std_specs::hash::group_hash_axioms;

/// The candidate built from beginning `o`, stem `s` and ending `e`, where `-1` for a beginning
/// or an ending means none.
pub open spec fn dressed(
    openings: Seq<Seq<char>>,
    endings: Seq<Seq<char>>,
    stems: Seq<Seq<char>>,
    o: int,
    s: int,
    e: int,
) -> Seq<char> {
    (if o < 0 {
        Seq::empty()
    } else {
        openings[o]
    }) + stems[s] + (if e < 0 {
        Seq::empty()
    } else {
        endings[e]
    })
}

/// Whether `(o, s, e)` is a candidate the search asks about: a beginning, or none when the bare
/// stem is allowed; any stem; any ending, or none.
pub open spec fn in_space(
    openings: Seq<Seq<char>>,
    endings: Seq<Seq<char>>,
    stems: Seq<Seq<char>>,
    bare: bool,
    o: int,
    s: int,
    e: int,
) -> bool {
    &&& (o == -1 && bare) || (0 <= o < openings.len())
    &&& 0 <= s < stems.len()
    &&& -1 <= e < endings.len()
}

/// The id a candidate name lands on, hashed with or without folding backslashes.
pub open spec fn landed(name: Seq<char>, fold: bool) -> u64 {
    hash_of(name, fold) & ID_MASK
}

/// Whether `(id, name)` is something the search must report: a candidate whose id is wanted.
pub open spec fn is_find(
    openings: Seq<Seq<char>>,
    endings: Seq<Seq<char>>,
    stems: Seq<Seq<char>>,
    bare: bool,
    fold: bool,
    wanted: Map<u64, usize>,
    id: u64,
    name: Seq<char>,
) -> bool {
    exists|o: int, s: int, e: int|
        #[trigger] in_space(openings, endings, stems, bare, o, s, e) && name == dressed(
            openings,
            endings,
            stems,
            o,
            s,
            e,
        ) && id == landed(name, fold) && wanted.contains_key(id)
}

/// Whether ending `e` (`-1` for none) is one a batch asks about: its own endings, and no ending
/// at all when it is the first batch.
pub open spec fn in_batch(e: int, start: int, end: int, first: bool) -> bool {
    (e == -1 && first) || start <= e < end
}

/// Whether `(id, name)` is a find of the batch of endings `start..end`: a candidate with one of
/// the batch's endings, or with none in the first batch, whose id is wanted.
pub open spec fn is_batch_find(
    openings: Seq<Seq<char>>,
    endings: Seq<Seq<char>>,
    stems: Seq<Seq<char>>,
    bare: bool,
    fold: bool,
    wanted: Map<u64, usize>,
    start: int,
    end: int,
    first: bool,
    id: u64,
    name: Seq<char>,
) -> bool {
    exists|o: int, s: int, e: int|
        #[trigger] in_space(openings, endings, stems, bare, o, s, e) && in_batch(e, start, end, first)
            && name == dressed(openings, endings, stems, o, s, e) && id == landed(name, fold)
            && wanted.contains_key(id)
}

/// A candidate of a batch whose id is wanted is a find of that batch.
proof fn lemma_batch_candidate_found(
    openings: Seq<Seq<char>>,
    endings: Seq<Seq<char>>,
    stems: Seq<Seq<char>>,
    bare: bool,
    fold: bool,
    wanted: Map<u64, usize>,
    start: int,
    end: int,
    first: bool,
    o: int,
    s: int,
    e: int,
)
    requires
        in_space(openings, endings, stems, bare, o, s, e),
        in_batch(e, start, end, first),
        wanted.contains_key(landed(dressed(openings, endings, stems, o, s, e), fold)),
    ensures
        is_batch_find(
            openings,
            endings,
            stems,
            bare,
            fold,
            wanted,
            start,
            end,
            first,
            landed(dressed(openings, endings, stems, o, s, e), fold),
            dressed(openings, endings, stems, o, s, e),
        ),
{
}

/// Whether a result list holds `(id, name)`.
pub open spec fn listed(found: Seq<(u64, String)>, id: u64, name: Seq<char>) -> bool {
    exists|i: int| 0 <= i < found.len() && #[trigger] found[i].0 == id && found[i].1@ == name
}

/// Everything a result list holds, as `(id, name)` pairs.
pub open spec fn found_set(found: Seq<(u64, String)>) -> Set<(u64, Seq<char>)> {
    Set::new(|entry: (u64, Seq<char>)| listed(found, entry.0, entry.1))
}

/// What one candidate adds to a result list: itself under its id when that id is wanted, and
/// nothing otherwise.
pub open spec fn find_of(
    openings: Seq<Seq<char>>,
    endings: Seq<Seq<char>>,
    stems: Seq<Seq<char>>,
    fold: bool,
    wanted: Map<u64, usize>,
    o: int,
    s: int,
    e: int,
) -> Seq<(u64, Seq<char>)> {
    let name = dressed(openings, endings, stems, o, s, e);
    if wanted.contains_key(landed(name, fold)) {
        seq![(landed(name, fold), name)]
    } else {
        Seq::empty()
    }
}

/// The finds of stem `s` under beginning `o` (`-1` for none): with no ending, then with each
/// ending in turn, `n` candidates in all.
pub open spec fn ending_finds(
    openings: Seq<Seq<char>>,
    endings: Seq<Seq<char>>,
    stems: Seq<Seq<char>>,
    fold: bool,
    wanted: Map<u64, usize>,
    o: int,
    s: int,
    n: int,
) -> Seq<(u64, Seq<char>)>
    decreases n,
{
    if n <= 0 {
        Seq::empty()
    } else {
        ending_finds(openings, endings, stems, fold, wanted, o, s, n - 1) + find_of(
            openings,
            endings,
            stems,
            fold,
            wanted,
            o,
            s,
            n - 2,
        )
    }
}

/// The finds of stem `s`: under no beginning first when the bare stem is asked about, then
/// under each of the first `k` beginnings in turn.
pub open spec fn opening_finds(
    openings: Seq<Seq<char>>,
    endings: Seq<Seq<char>>,
    stems: Seq<Seq<char>>,
    bare: bool,
    fold: bool,
    wanted: Map<u64, usize>,
    s: int,
    k: int,
) -> Seq<(u64, Seq<char>)>
    decreases k,
{
    if k <= 0 {
        if bare {
            ending_finds(openings, endings, stems, fold, wanted, -1, s, endings.len() + 1int)
        } else {
            Seq::empty()
        }
    } else {
        opening_finds(openings, endings, stems, bare, fold, wanted, s, k - 1) + ending_finds(
            openings,
            endings,
            stems,
            fold,
            wanted,
            k - 1,
            s,
            endings.len() + 1int,
        )
    }
}

/// The finds of the stems `start..t`, stem by stem.
pub open spec fn stem_finds(
    openings: Seq<Seq<char>>,
    endings: Seq<Seq<char>>,
    stems: Seq<Seq<char>>,
    bare: bool,
    fold: bool,
    wanted: Map<u64, usize>,
    start: int,
    t: int,
) -> Seq<(u64, Seq<char>)>
    decreases t - start,
{
    if t <= start {
        Seq::empty()
    } else {
        stem_finds(openings, endings, stems, bare, fold, wanted, start, t - 1) + opening_finds(
            openings,
            endings,
            stems,
            bare,
            fold,
            wanted,
            t - 1,
            openings.len() as int,
        )
    }
}

/// Every find of a search, once per candidate and in the order the search goes through its
/// candidates: stem by stem; under each stem the bare stem first, when it is asked about, then
/// each beginning; under each of those the name with no ending, then each ending.
pub open spec fn search_finds(
    openings: Seq<Seq<char>>,
    endings: Seq<Seq<char>>,
    stems: Seq<Seq<char>>,
    bare: bool,
    fold: bool,
    wanted: Map<u64, usize>,
) -> Seq<(u64, Seq<char>)> {
    stem_finds(openings, endings, stems, bare, fold, wanted, 0, stems.len() as int)
}

/// Whether `picks` names, row by row, the candidate each row of `rows` is: a candidate the
/// search asks about, whose id is wanted, under that id.
pub open spec fn rows_of(
    rows: Seq<(u64, Seq<char>)>,
    picks: Seq<(int, int, int)>,
    openings: Seq<Seq<char>>,
    endings: Seq<Seq<char>>,
    stems: Seq<Seq<char>>,
    bare: bool,
    fold: bool,
    wanted: Map<u64, usize>,
) -> bool {
    &&& picks.len() == rows.len()
    &&& forall|j: int|
        0 <= j < rows.len() ==> #[trigger] in_space(
            openings,
            endings,
            stems,
            bare,
            picks[j].0,
            picks[j].1,
            picks[j].2,
        ) && rows[j].1 == dressed(openings, endings, stems, picks[j].0, picks[j].1, picks[j].2)
            && rows[j].0 == landed(rows[j].1, fold) && wanted.contains_key(rows[j].0)
}

/// Rows and their candidates, put end to end, still go together.
proof fn lemma_rows_of_concat(
    a: Seq<(u64, Seq<char>)>,
    pa: Seq<(int, int, int)>,
    b: Seq<(u64, Seq<char>)>,
    pb: Seq<(int, int, int)>,
    openings: Seq<Seq<char>>,
    endings: Seq<Seq<char>>,
    stems: Seq<Seq<char>>,
    bare: bool,
    fold: bool,
    wanted: Map<u64, usize>,
)
    requires
        rows_of(a, pa, openings, endings, stems, bare, fold, wanted),
        rows_of(b, pb, openings, endings, stems, bare, fold, wanted),
    ensures
        rows_of(a + b, pa + pb, openings, endings, stems, bare, fold, wanted),
{
    let rows = a + b;
    let picks = pa + pb;
    assert forall|j: int| 0 <= j < rows.len() implies #[trigger] in_space(
        openings,
        endings,
        stems,
        bare,
        picks[j].0,
        picks[j].1,
        picks[j].2,
    ) && rows[j].1 == dressed(openings, endings, stems, picks[j].0, picks[j].1, picks[j].2)
        && rows[j].0 == landed(rows[j].1, fold) && wanted.contains_key(rows[j].0) by {
        if j < a.len() {
            assert(rows[j] == a[j] && picks[j] == pa[j]);
            assert(in_space(openings, endings, stems, bare, pa[j].0, pa[j].1, pa[j].2));
        } else {
            let q: int = j - a.len();
            assert(rows[j] == b[q] && picks[j] == pb[q]);
            assert(in_space(openings, endings, stems, bare, pb[q].0, pb[q].1, pb[q].2));
        }
    }
}

/// The candidates behind [`ending_finds`]: each once, all with beginning `o` and stem `s`, and
/// every wanted one with an ending before `n - 1` among them.
proof fn lemma_ending_picks(
    openings: Seq<Seq<char>>,
    endings: Seq<Seq<char>>,
    stems: Seq<Seq<char>>,
    bare: bool,
    fold: bool,
    wanted: Map<u64, usize>,
    o: int,
    s: int,
    n: int,
) -> (picks: Seq<(int, int, int)>)
    requires
        (o == -1 && bare) || 0 <= o < openings.len(),
        0 <= s < stems.len(),
        0 <= n <= endings.len() + 1,
    ensures
        rows_of(ending_finds(openings, endings, stems, fold, wanted, o, s, n), picks, openings, endings, stems, bare, fold, wanted),
        picks.no_duplicates(),
        forall|j: int| 0 <= j < picks.len() ==> (#[trigger] picks[j]).0 == o && picks[j].1 == s && picks[j].2 < n - 1,
        forall|e: int|
            -1 <= e < n - 1 && wanted.contains_key(landed(dressed(openings, endings, stems, o, s, e), fold))
                ==> #[trigger] picks.contains((o, s, e)),
    decreases n,
{
    if n <= 0 {
        Seq::empty()
    } else {
        let before = lemma_ending_picks(openings, endings, stems, bare, fold, wanted, o, s, n - 1);
        let e: int = n - 2;
        let name = dressed(openings, endings, stems, o, s, e);
        let last: Seq<(int, int, int)> = if wanted.contains_key(landed(name, fold)) {
            seq![(o, s, e)]
        } else {
            Seq::empty()
        };
        let tail = find_of(openings, endings, stems, fold, wanted, o, s, e);
        assert(in_space(openings, endings, stems, bare, o, s, e));
        assert(rows_of(tail, last, openings, endings, stems, bare, fold, wanted)) by {
            if last.len() > 0 {
                assert(in_space(openings, endings, stems, bare, last[0].0, last[0].1, last[0].2));
            }
        }
        lemma_rows_of_concat(
            ending_finds(openings, endings, stems, fold, wanted, o, s, n - 1),
            before,
            tail,
            last,
            openings,
            endings,
            stems,
            bare,
            fold,
            wanted,
        );
        assert forall|p: int, q: int| 0 <= p < before.len() && 0 <= q < last.len() implies before[p]
            != last[q] by {
            assert(before[p].2 < n - 2);
        }
        vstd::seq_lib::lemma_no_dup_in_concat(before, last);
        let picks = before + last;
        assert forall|j: int| 0 <= j < picks.len() implies (#[trigger] picks[j]).0 == o && picks[j].1
            == s && picks[j].2 < n - 1 by {
            if j < before.len() {
                assert(picks[j] == before[j]);
            } else {
                assert(picks[j] == last[j - before.len()]);
            }
        }
        assert forall|k: int|
            -1 <= k < n - 1 && wanted.contains_key(landed(dressed(openings, endings, stems, o, s, k), fold))
                implies #[trigger] picks.contains((o, s, k)) by {
            if k < e {
                assert(before.contains((o, s, k)));
                let q: int = choose|q: int| 0 <= q < before.len() && before[q] == (o, s, k);
                assert(picks[q] == before[q]);
            } else {
                assert(picks[before.len() as int] == (o, s, k));
            }
        }
        picks
    }
}

/// The candidates behind [`opening_finds`]: each once, all with stem `s`, and every wanted one
/// under the bare stem (when it is asked about) or one of the first `k` beginnings among them.
proof fn lemma_opening_picks(
    openings: Seq<Seq<char>>,
    endings: Seq<Seq<char>>,
    stems: Seq<Seq<char>>,
    bare: bool,
    fold: bool,
    wanted: Map<u64, usize>,
    s: int,
    k: int,
) -> (picks: Seq<(int, int, int)>)
    requires
        0 <= s < stems.len(),
        0 <= k <= openings.len(),
    ensures
        rows_of(opening_finds(openings, endings, stems, bare, fold, wanted, s, k), picks, openings, endings, stems, bare, fold, wanted),
        picks.no_duplicates(),
        forall|j: int| 0 <= j < picks.len() ==> (#[trigger] picks[j]).1 == s && picks[j].0 < k,
        forall|o: int, e: int|
            ((o == -1 && bare) || 0 <= o < k) && -1 <= e < endings.len() && wanted.contains_key(
                landed(dressed(openings, endings, stems, o, s, e), fold),
            ) ==> #[trigger] picks.contains((o, s, e)),
    decreases k,
{
    if k <= 0 {
        if bare {
            lemma_ending_picks(openings, endings, stems, bare, fold, wanted, -1, s, endings.len() + 1int)
        } else {
            Seq::empty()
        }
    } else {
        let before = lemma_opening_picks(openings, endings, stems, bare, fold, wanted, s, k - 1);
        let last = lemma_ending_picks(openings, endings, stems, bare, fold, wanted, k - 1, s, endings.len() + 1int);
        lemma_rows_of_concat(
            opening_finds(openings, endings, stems, bare, fold, wanted, s, k - 1),
            before,
            ending_finds(openings, endings, stems, fold, wanted, k - 1, s, endings.len() + 1int),
            last,
            openings,
            endings,
            stems,
            bare,
            fold,
            wanted,
        );
        assert forall|p: int, q: int| 0 <= p < before.len() && 0 <= q < last.len() implies before[p]
            != last[q] by {
            assert(before[p].0 < k - 1);
            assert(last[q].0 == k - 1);
        }
        vstd::seq_lib::lemma_no_dup_in_concat(before, last);
        let picks = before + last;
        assert forall|j: int| 0 <= j < picks.len() implies (#[trigger] picks[j]).1 == s && picks[j].0 < k by {
            if j < before.len() {
                assert(picks[j] == before[j]);
            } else {
                assert(picks[j] == last[j - before.len()]);
            }
        }
        assert forall|o: int, e: int|
            ((o == -1 && bare) || 0 <= o < k) && -1 <= e < endings.len() && wanted.contains_key(
                landed(dressed(openings, endings, stems, o, s, e), fold),
            ) implies #[trigger] picks.contains((o, s, e)) by {
            if o < k - 1 {
                assert(before.contains((o, s, e)));
                let q: int = choose|q: int| 0 <= q < before.len() && before[q] == (o, s, e);
                assert(picks[q] == before[q]);
            } else {
                assert(last.contains((o, s, e)));
                let q: int = choose|q: int| 0 <= q < last.len() && last[q] == (o, s, e);
                assert(picks[before.len() + q] == last[q]);
            }
        }
        picks
    }
}

/// The candidates behind [`stem_finds`]: each once, all with a stem in `start..t`, and every
/// wanted one with such a stem among them.
proof fn lemma_stem_picks(
    openings: Seq<Seq<char>>,
    endings: Seq<Seq<char>>,
    stems: Seq<Seq<char>>,
    bare: bool,
    fold: bool,
    wanted: Map<u64, usize>,
    start: int,
    t: int,
) -> (picks: Seq<(int, int, int)>)
    requires
        0 <= start <= t <= stems.len(),
    ensures
        rows_of(stem_finds(openings, endings, stems, bare, fold, wanted, start, t), picks, openings, endings, stems, bare, fold, wanted),
        picks.no_duplicates(),
        forall|j: int| 0 <= j < picks.len() ==> start <= (#[trigger] picks[j]).1 < t,
        forall|o: int, s: int, e: int|
            #[trigger] in_space(openings, endings, stems, bare, o, s, e) && start <= s < t
                && wanted.contains_key(landed(dressed(openings, endings, stems, o, s, e), fold))
                ==> picks.contains((o, s, e)),
    decreases t - start,
{
    if t <= start {
        Seq::empty()
    } else {
        let before = lemma_stem_picks(openings, endings, stems, bare, fold, wanted, start, t - 1);
        let last = lemma_opening_picks(openings, endings, stems, bare, fold, wanted, t - 1, openings.len() as int);
        lemma_rows_of_concat(
            stem_finds(openings, endings, stems, bare, fold, wanted, start, t - 1),
            before,
            opening_finds(openings, endings, stems, bare, fold, wanted, t - 1, openings.len() as int),
            last,
            openings,
            endings,
            stems,
            bare,
            fold,
            wanted,
        );
        assert forall|p: int, q: int| 0 <= p < before.len() && 0 <= q < last.len() implies before[p]
            != last[q] by {
            assert(before[p].1 < t - 1);
            assert(last[q].1 == t - 1);
        }
        vstd::seq_lib::lemma_no_dup_in_concat(before, last);
        let picks = before + last;
        assert forall|j: int| 0 <= j < picks.len() implies start <= (#[trigger] picks[j]).1 < t by {
            if j < before.len() {
                assert(picks[j] == before[j]);
            } else {
                assert(picks[j] == last[j - before.len()]);
            }
        }
        assert forall|o: int, s: int, e: int|
            #[trigger] in_space(openings, endings, stems, bare, o, s, e) && start <= s < t
                && wanted.contains_key(landed(dressed(openings, endings, stems, o, s, e), fold))
                implies picks.contains((o, s, e)) by {
            if s < t - 1 {
                assert(before.contains((o, s, e)));
                let q: int = choose|q: int| 0 <= q < before.len() && before[q] == (o, s, e);
                assert(picks[q] == before[q]);
            } else {
                assert(last.contains((o, s, e)));
                let q: int = choose|q: int| 0 <= q < last.len() && last[q] == (o, s, e);
                assert(picks[before.len() + q] == last[q]);
            }
        }
        picks
    }
}

/// A result list whose rows are, in order, the finds of the search reports each wanted
/// candidate exactly once.
pub proof fn lemma_search_finds_each_once(
    found: Seq<(u64, String)>,
    openings: Seq<Seq<char>>,
    endings: Seq<Seq<char>>,
    stems: Seq<Seq<char>>,
    bare: bool,
    fold: bool,
    wanted: Map<u64, usize>,
)
    requires
        row_texts(found) == search_finds(openings, endings, stems, bare, fold, wanted),
    ensures
        reports_each_once(found, openings, endings, stems, bare, fold, wanted),
{
    let picks = lemma_stem_picks(openings, endings, stems, bare, fold, wanted, 0, stems.len() as int);
    let rows = search_finds(openings, endings, stems, bare, fold, wanted);
    assert forall|i: int| 0 <= i < found.len() implies reports_candidate(
        #[trigger] found[i],
        picks[i],
        openings,
        endings,
        stems,
        bare,
        fold,
        wanted,
    ) by {
        assert(row_texts(found)[i] == (found[i].0, found[i].1@));
        assert(in_space(openings, endings, stems, bare, picks[i].0, picks[i].1, picks[i].2));
    }
    assert(each_once(found, picks, openings, endings, stems, bare, fold, wanted));
}

/// A result list with one more entry pushed, taken as texts.
proof fn lemma_row_texts_push(rows: Seq<(u64, String)>, entry: (u64, String))
    ensures
        row_texts(rows.push(entry)) == row_texts(rows).push((entry.0, entry.1@)),
{
    assert(row_texts(rows.push(entry)) =~= row_texts(rows).push((entry.0, entry.1@)));
}

/// What a search over these lists must report: every candidate whose id is wanted.
pub open spec fn finds(
    openings: Seq<Seq<char>>,
    endings: Seq<Seq<char>>,
    stems: Seq<Seq<char>>,
    bare: bool,
    fold: bool,
    wanted: Map<u64, usize>,
) -> Set<(u64, Seq<char>)> {
    Set::new(
        |entry: (u64, Seq<char>)|
            is_find(openings, endings, stems, bare, fold, wanted, entry.0, entry.1),
    )
}

/// A result list reports exactly what the search must: every entry is a find, and every find is
/// an entry.
pub open spec fn reports_exactly(
    found: Seq<(u64, String)>,
    openings: Seq<Seq<char>>,
    endings: Seq<Seq<char>>,
    stems: Seq<Seq<char>>,
    bare: bool,
    fold: bool,
    wanted: Map<u64, usize>,
) -> bool {
    &&& forall|i: int|
        0 <= i < found.len() ==> is_find(
            openings,
            endings,
            stems,
            bare,
            fold,
            wanted,
            #[trigger] found[i].0,
            found[i].1@,
        )
    &&& forall|o: int, s: int, e: int|
        #[trigger] in_space(openings, endings, stems, bare, o, s, e) && wanted.contains_key(
            landed(dressed(openings, endings, stems, o, s, e), fold),
        ) ==> listed(
            found,
            landed(dressed(openings, endings, stems, o, s, e), fold),
            dressed(openings, endings, stems, o, s, e),
        )
}

/// A list reports exactly what the batch of endings `start..end` must: every entry is a find of
/// that batch, and every find of that batch is an entry.
pub open spec fn reports_batch(
    found: Seq<(u64, String)>,
    openings: Seq<Seq<char>>,
    endings: Seq<Seq<char>>,
    stems: Seq<Seq<char>>,
    bare: bool,
    fold: bool,
    wanted: Map<u64, usize>,
    start: int,
    end: int,
    first: bool,
) -> bool {
    &&& forall|i: int|
        0 <= i < found.len() ==> is_batch_find(
            openings,
            endings,
            stems,
            bare,
            fold,
            wanted,
            start,
            end,
            first,
            #[trigger] found[i].0,
            found[i].1@,
        )
    &&& forall|o: int, s: int, e: int|
        #[trigger] in_space(openings, endings, stems, bare, o, s, e) && in_batch(e, start, end, first)
            && wanted.contains_key(landed(dressed(openings, endings, stems, o, s, e), fold))
            ==> listed(
            found,
            landed(dressed(openings, endings, stems, o, s, e), fold),
            dressed(openings, endings, stems, o, s, e),
        )
}

/// Whether `entry` is what candidate `pick` (a beginning, a stem and an ending, by index)
/// reports: the candidate's name under its id, that id being wanted.
pub open spec fn reports_candidate(
    entry: (u64, String),
    pick: (int, int, int),
    openings: Seq<Seq<char>>,
    endings: Seq<Seq<char>>,
    stems: Seq<Seq<char>>,
    bare: bool,
    fold: bool,
    wanted: Map<u64, usize>,
) -> bool {
    &&& in_space(openings, endings, stems, bare, pick.0, pick.1, pick.2)
    &&& entry.1@ == dressed(openings, endings, stems, pick.0, pick.1, pick.2)
    &&& entry.0 == landed(entry.1@, fold)
    &&& wanted.contains_key(entry.0)
}

/// Whether `picks` says, entry by entry, which candidate each entry of `found` reports, with no
/// candidate twice, and every candidate whose id is wanted among them.
pub open spec fn each_once(
    found: Seq<(u64, String)>,
    picks: Seq<(int, int, int)>,
    openings: Seq<Seq<char>>,
    endings: Seq<Seq<char>>,
    stems: Seq<Seq<char>>,
    bare: bool,
    fold: bool,
    wanted: Map<u64, usize>,
) -> bool {
    &&& picks.len() == found.len()
    &&& forall|i: int|
        0 <= i < found.len() ==> reports_candidate(
            #[trigger] found[i],
            picks[i],
            openings,
            endings,
            stems,
            bare,
            fold,
            wanted,
        )
    &&& picks.no_duplicates()
    &&& forall|o: int, s: int, e: int|
        #[trigger] in_space(openings, endings, stems, bare, o, s, e) && wanted.contains_key(
            landed(dressed(openings, endings, stems, o, s, e), fold),
        ) ==> picks.contains((o, s, e))
}

/// A result list reports each candidate whose id is wanted exactly once, and nothing else.
pub open spec fn reports_each_once(
    found: Seq<(u64, String)>,
    openings: Seq<Seq<char>>,
    endings: Seq<Seq<char>>,
    stems: Seq<Seq<char>>,
    bare: bool,
    fold: bool,
    wanted: Map<u64, usize>,
) -> bool {
    exists|picks: Seq<(int, int, int)>|
        #[trigger] each_once(found, picks, openings, endings, stems, bare, fold, wanted)
}

/// How many batches of `size` endings a list of `total` endings makes: one at least, since an
/// empty list still has its ending-less candidates to ask about.
pub open spec fn batch_count(total: int, size: int) -> int {
    if total <= 0 {
        1
    } else {
        (total + size - 1) / size
    }
}

/// Where batch `b` of `size` endings stops in a list of `total`.
pub open spec fn batch_end(b: int, size: int, total: int) -> int {
    if (b + 1) * size < total {
        (b + 1) * size
    } else {
        total
    }
}

/// The batches that found something, in their order.
pub open spec fn with_finds(batches: Seq<Seq<(u64, String)>>) -> Seq<Seq<(u64, String)>>
    decreases batches.len(),
{
    if batches.len() == 0 {
        Seq::empty()
    } else if batches.last().len() > 0 {
        with_finds(batches.drop_last()).push(batches.last())
    } else {
        with_finds(batches.drop_last())
    }
}

/// Counting up whole batches stops at [`batch_count`].
proof fn lemma_batch_count(total: int, size: int, r: int)
    requires
        size >= 1,
        r >= 1,
        total > 0,
        (r - 1) * size < total <= r * size,
    ensures
        r == batch_count(total, size),
{
    assert((total + size - 1) / size == r) by (nonlinear_arith)
        requires
            size >= 1,
            r >= 1,
            (r - 1) * size < total,
            total <= r * size,
    {
        assert((r - 1) * size + size == r * size);
        assert(r * size <= total + size - 1 < (r + 1) * size);
    }
}

/// A result list that reports exactly what the search must has exactly the search's finds.
pub proof fn lemma_reports_exactly_is_finds(
    found: Seq<(u64, String)>,
    openings: Seq<Seq<char>>,
    endings: Seq<Seq<char>>,
    stems: Seq<Seq<char>>,
    bare: bool,
    fold: bool,
    wanted: Map<u64, usize>,
)
    requires
        reports_exactly(found, openings, endings, stems, bare, fold, wanted),
    ensures
        found_set(found) == finds(openings, endings, stems, bare, fold, wanted),
{
    assert forall|entry: (u64, Seq<char>)| #[trigger] found_set(found).contains(entry) == finds(
        openings,
        endings,
        stems,
        bare,
        fold,
        wanted,
    ).contains(entry) by {
        if listed(found, entry.0, entry.1) {
            let i = choose|i: int|
                0 <= i < found.len() && #[trigger] found[i].0 == entry.0 && found[i].1@ == entry.1;
            assert(is_find(openings, endings, stems, bare, fold, wanted, found[i].0, found[i].1@));
        }
        if is_find(openings, endings, stems, bare, fold, wanted, entry.0, entry.1) {
            let (o, s, e) = choose|o: int, s: int, e: int|
                #[trigger] in_space(openings, endings, stems, bare, o, s, e) && entry.1 == dressed(
                    openings,
                    endings,
                    stems,
                    o,
                    s,
                    e,
                ) && entry.0 == landed(entry.1, fold) && wanted.contains_key(entry.0);
            assert(in_space(openings, endings, stems, bare, o, s, e));
        }
    }
    assert(found_set(found) =~= finds(openings, endings, stems, bare, fold, wanted));
}

/// Pushing onto a result list keeps everything it already listed.
proof fn lemma_listed_push(found: Seq<(u64, String)>, entry: (u64, String), id: u64, name: Seq<char>)
    ensures
        listed(found, id, name) ==> listed(found.push(entry), id, name),
{
    if listed(found, id, name) {
        let i = choose|i: int|
            0 <= i < found.len() && #[trigger] found[i].0 == id && found[i].1@ == name;
        assert(found.push(entry)[i] == found[i]);
    }
}

/// The last entry pushed is listed.
proof fn lemma_listed_last(found: Seq<(u64, String)>, entry: (u64, String))
    ensures
        listed(found.push(entry), entry.0, entry.1@),
{
    assert(found.push(entry)[found.len() as int] == entry);
}

/// The hash a candidate lands on is the state its beginning leaves, with the stem and then the
/// ending fed in.
proof fn lemma_dressed_hash(
    openings: Seq<Seq<char>>,
    endings: Seq<Seq<char>>,
    stems: Seq<Seq<char>>,
    o: int,
    s: int,
    e: int,
    fold: bool,
)
    ensures
        hash_of(dressed(openings, endings, stems, o, s, e), fold) == fold_bytes(
            fold_bytes(
                fold_bytes(
                    BASIS,
                    encode_utf8(
                        if o < 0 {
                            Seq::<char>::empty()
                        } else {
                            openings[o]
                        },
                    ),
                    fold,
                ),
                encode_utf8(stems[s]),
                fold,
            ),
            encode_utf8(
                if e < 0 {
                    Seq::<char>::empty()
                } else {
                    endings[e]
                },
            ),
            fold,
        ),
{
    let p = if o < 0 {
        Seq::<char>::empty()
    } else {
        openings[o]
    };
    let q = if e < 0 {
        Seq::<char>::empty()
    } else {
        endings[e]
    };
    lemma_hash_concat(BASIS, p + stems[s], q, fold);
    lemma_hash_concat(BASIS, p, stems[s], fold);
}

/// A candidate the search asks about, whose id is wanted, is a find.
proof fn lemma_candidate_found(
    openings: Seq<Seq<char>>,
    endings: Seq<Seq<char>>,
    stems: Seq<Seq<char>>,
    bare: bool,
    fold: bool,
    wanted: Map<u64, usize>,
    o: int,
    s: int,
    e: int,
)
    requires
        in_space(openings, endings, stems, bare, o, s, e),
        wanted.contains_key(landed(dressed(openings, endings, stems, o, s, e), fold)),
    ensures
        is_find(
            openings,
            endings,
            stems,
            bare,
            fold,
            wanted,
            landed(dressed(openings, endings, stems, o, s, e), fold),
            dressed(openings, endings, stems, o, s, e),
        ),
{
}

/// The empty string encodes to no bytes, so feeding it changes nothing.
proof fn lemma_empty_feeds_nothing(hash: u64, fold: bool)
    ensures
        fold_bytes(hash, encode_utf8(Seq::<char>::empty()), fold) == hash,
{
    assert(encode_utf8(Seq::<char>::empty()) =~= Seq::<u8>::empty());
}

/// Every id a map is keyed by, once each.
pub fn wanted_ids(wanted: &HashMap<u64, usize>) -> (ids: Vec<u64>)
    ensures
        forall|id: u64| #[trigger] ids@.contains(id) <==> wanted@.contains_key(id),
        ids@.len() == wanted@.len(),
{
    let mut ids: Vec<u64> = Vec::new();
    let keys = wanted.keys();
    let ghost all = keys.remaining().unref();
    proof {
        assert(keys == spec_keys_iter(wanted));
        assert(all.to_set() == wanted@.dom());
    }
    for key in it: keys
        invariant
            all == it.seq().unref(),
            ids@ == it.seq().take(it.index() as int).unref(),
    {
        ids.push(*key);
    }
    assert(ids@ =~= all);
    assert forall|id: u64| #[trigger] ids@.contains(id) <==> wanted@.contains_key(id) by {
        assert(all.to_set().contains(id) <==> all.contains(id));
    }
    ids
}

/// A beginning, with its hash already taken.
fn opening_pairs(openings: &[String], fold: bool) -> (pairs: Vec<(String, u64)>)
    ensures
        pairs@.len() == openings@.len(),
        forall|i: int|
            #![trigger pairs@[i]]
            0 <= i < openings@.len() ==> pairs@[i].0@ == openings@[i]@ && pairs@[i].1 == hash_of(
                openings@[i]@,
                fold,
            ),
{
    let mut pairs: Vec<(String, u64)> = Vec::new();
    let mut i: usize = 0;
    while i < openings.len()
        invariant
            i <= openings@.len(),
            pairs@.len() == i,
            forall|k: int|
                #![trigger pairs@[k]]
                0 <= k < i ==> pairs@[k].0@ == openings@[k]@ && pairs@[k].1 == hash_of(
                    openings@[k]@,
                    fold,
                ),
        decreases openings@.len() - i,
    {
        let text = openings[i].clone();
        let hash = if fold {
            hash64(openings[i].as_str())
        } else {
            crate::hash64_raw(openings[i].as_str())
        };
        pairs.push((text, hash));
        i = i + 1;
    }
    pairs
}

/// Copies a list of strings.
fn copy_all(list: &[String]) -> (out: Vec<String>)
    ensures
        texts(out@) == texts(list@),
{
    let mut out: Vec<String> = Vec::new();
    let mut i: usize = 0;
    while i < list.len()
        invariant
            i <= list@.len(),
            out@.len() == i,
            forall|k: int| 0 <= k < i ==> #[trigger] out@[k]@ == list@[k]@,
        decreases list@.len() - i,
    {
        out.push(list[i].clone());
        i = i + 1;
    }
    assert(texts(out@) =~= texts(list@));
    out
}

/// A product that stops at the largest `u64` rather than wrapping.
fn saturating_product(a: u64, b: u64) -> (out: u64)
    ensures
        out == if a * b > u64::MAX { u64::MAX as int } else { a * b },
{
    match a.checked_mul(b) {
        Some(product) => product,
        None => u64::MAX,
    }
}

/// How many candidates `stems` stems make with `openings` beginnings and `endings` endings: each
/// stem wearing every beginning, or none when the bare stem is asked about, and every ending or
/// none -- stopping at the largest `u64`.
pub open spec fn candidate_count(openings: int, endings: int, stems: int, bare: bool) -> int {
    let product = stems * (openings + if bare { 1int } else { 0int }) * (endings + 1);
    if product > u64::MAX {
        u64::MAX as int
    } else {
        product
    }
}

/// How many distinct candidate names a search is asking about.
///
/// A property of the three lists, not of how the search runs: every stem, wearing every
/// beginning or none (when the bare stem is asked about), wearing every ending or none. Zero when
/// there are no beginnings and the bare stem is excluded, because then nothing is tested.
/// Saturates rather than wrapping.
pub fn candidate_space(openings: usize, endings: usize, stems: usize, bare: bool) -> (out: u64)
    requires
        bare ==> openings < u64::MAX,
        endings < u64::MAX,
    ensures
        out == candidate_count(openings as int, endings as int, stems as int, bare),
{
    let width = openings as u64 + if bare { 1u64 } else { 0u64 };
    let first = saturating_product(stems as u64, width);
    let out = saturating_product(first, endings as u64 + 1);
    proof {
        let w = openings as int + if bare { 1int } else { 0int };
        let product = stems as int * w * (endings as int + 1);
        if stems as int * w > u64::MAX {
            assert(product >= stems as int * w) by (nonlinear_arith)
                requires
                    product == stems as int * w * (endings as int + 1),
                    stems as int * w >= 0,
                    endings >= 0,
            ;
        }
    }
    out
}

/// A search, as the three lists it multiplies together, hashed forwards.
pub struct Search {
    openings: Vec<(String, u64)>,
    endings: Vec<String>,
    bare: bool,
}

impl Search {
    pub closed spec fn opening_texts(&self) -> Seq<Seq<char>> {
        self.openings@.map_values(|pair: (String, u64)| pair.0@)
    }

    pub closed spec fn ending_texts(&self) -> Seq<Seq<char>> {
        texts(self.endings@)
    }

    pub closed spec fn bare_spec(&self) -> bool {
        self.bare
    }

    /// Every beginning carries its own hash.
    pub closed spec fn wf(&self) -> bool {
        forall|i: int|
            0 <= i < self.openings@.len() ==> #[trigger] self.openings@[i].1 == hash_of(
                self.openings@[i].0@,
                true,
            )
    }

    pub fn new(openings: &[String], endings: &[String]) -> (search: Self)
        ensures
            search.wf(),
            search.opening_texts() == texts(openings@),
            search.ending_texts() == texts(endings@),
            search.bare_spec(),
    {
        let search = Search {
            openings: opening_pairs(openings, true),
            endings: copy_all(endings),
            bare: true,
        };
        assert(search.opening_texts() =~= texts(openings@));
        search
    }

    /// Drops the bare stem, with neither a beginning nor an ending, from the candidates.
    pub fn dressed_only(self) -> (search: Self)
        ensures
            self.wf() ==> search.wf(),
            search.opening_texts() == self.opening_texts(),
            search.ending_texts() == self.ending_texts(),
            !search.bare_spec(),
    {
        Search { openings: self.openings, endings: self.endings, bare: false }
    }

    /// How many candidates a set of stems will produce.
    pub fn candidates(&self, stems: usize) -> (out: u64)
        requires
            self.opening_texts().len() < u64::MAX,
            self.ending_texts().len() < u64::MAX,
            stems as int * (self.opening_texts().len() + if self.bare_spec() { 1int } else { 0int })
                * (self.ending_texts().len() + 1) <= u64::MAX,
        ensures
            out == stems as int * (self.opening_texts().len() + if self.bare_spec() {
                1int
            } else {
                0int
            }) * (self.ending_texts().len() + 1),
            out == candidate_count(
                self.opening_texts().len() as int,
                self.ending_texts().len() as int,
                stems as int,
                self.bare_spec(),
            ),
    {
        let per_opening = self.endings.len() as u64 + 1;
        let openings = self.openings.len() as u64 + if self.bare { 1u64 } else { 0u64 };
        proof {
            let w = self.openings@.len() + if self.bare { 1int } else { 0int };
            assert(stems as int * w <= stems as int * w * (self.endings@.len() + 1)) by (nonlinear_arith)
                requires
                    stems as int * w >= 0,
            ;
        }
        stems as u64 * openings * per_opening
    }

    /// Runs the scan and returns what matched: every candidate whose id is wanted, each reported
    /// under its id.
    pub fn run(&self, stems: &[String], wanted: &HashMap<u64, usize>) -> (found: Vec<(u64, String)>)
        requires
            self.wf(),
        ensures
            row_texts(found@) == search_finds(
                self.opening_texts(),
                self.ending_texts(),
                texts(stems@),
                self.bare_spec(),
                true,
                wanted@,
            ),
            reports_each_once(
                found@,
                self.opening_texts(),
                self.ending_texts(),
                texts(stems@),
                self.bare_spec(),
                true,
                wanted@,
            ),
            reports_exactly(
                found@,
                self.opening_texts(),
                self.ending_texts(),
                texts(stems@),
                self.bare_spec(),
                true,
                wanted@,
            ),
    {
        let ids = wanted_ids(wanted);
        let filter = Filter::new(ids.as_slice());
        let found = self.sweep(stems, 0, stems.len(), &filter, &ids, wanted);
        proof {
            lemma_search_finds_each_once(
                found@,
                self.opening_texts(),
                self.ending_texts(),
                texts(stems@),
                self.bare_spec(),
                true,
                wanted@,
            );
        }
        found
    }

    /// Tests one candidate: keeps it when its id is wanted.
    fn test(
        hash: u64,
        name: String,
        filter: &Filter,
        ids: &Vec<u64>,
        wanted: &HashMap<u64, usize>,
        hits: &mut Vec<(u64, String)>,
    )
        requires
            filter.built_over(ids@),
            forall|id: u64| #[trigger] ids@.contains(id) <==> wanted@.contains_key(id),
        ensures
            final(hits)@ == if wanted@.contains_key(hash & ID_MASK) {
                old(hits)@.push((hash & ID_MASK, name))
            } else {
                old(hits)@
            },
            forall|id: u64, text: Seq<char>|
                #[trigger] listed(old(hits)@, id, text) ==> listed(final(hits)@, id, text),
            wanted@.contains_key(hash & ID_MASK) ==> listed(final(hits)@, hash & ID_MASK, name@),
    {
        let id = hash & ID_MASK;
        let ghost before = hits@;
        let ghost entry = (id, name);
        proof {
            if wanted@.contains_key(id) {
                assert(ids@.contains(id));
                law_never_rejects_a_held_id(filter, ids@, id);
            }
        }
        if filter.may_hold(id) && wanted.contains_key(&id) {
            hits.push((id, name));
            proof {
                lemma_listed_last(before, entry);
                assert forall|id: u64, text: Seq<char>| #[trigger]
                    listed(before, id, text) implies listed(hits@, id, text) by {
                    lemma_listed_push(before, entry, id, text);
                }
            }
        }
    }

    /// One worker's share of the stems: `start..end`.
    pub fn sweep(
        &self,
        stems: &[String],
        start: usize,
        end: usize,
        filter: &Filter,
        ids: &Vec<u64>,
        wanted: &HashMap<u64, usize>,
    ) -> (hits: Vec<(u64, String)>)
        requires
            self.wf(),
            start <= end <= stems@.len(),
            filter.built_over(ids@),
            forall|id: u64| #[trigger] ids@.contains(id) <==> wanted@.contains_key(id),
        ensures
            row_texts(hits@) == stem_finds(
                self.opening_texts(),
                self.ending_texts(),
                texts(stems@),
                self.bare_spec(),
                true,
                wanted@,
                start as int,
                end as int,
            ),
            forall|i: int|
                0 <= i < hits@.len() ==> is_find(
                    self.opening_texts(),
                    self.ending_texts(),
                    texts(stems@),
                    self.bare_spec(),
                    true,
                    wanted@,
                    #[trigger] hits@[i].0,
                    hits@[i].1@,
                ),
            forall|o: int, s: int, e: int|
                #[trigger] in_space(
                    self.opening_texts(),
                    self.ending_texts(),
                    texts(stems@),
                    self.bare_spec(),
                    o,
                    s,
                    e,
                ) && start <= s < end && wanted@.contains_key(
                    landed(
                        dressed(self.opening_texts(), self.ending_texts(), texts(stems@), o, s, e),
                        true,
                    ),
                ) ==> listed(
                    hits@,
                    landed(
                        dressed(self.opening_texts(), self.ending_texts(), texts(stems@), o, s, e),
                        true,
                    ),
                    dressed(self.opening_texts(), self.ending_texts(), texts(stems@), o, s, e),
                ),
    {
        let ghost ops = self.opening_texts();
        let ghost ends = self.ending_texts();
        let ghost sts = texts(stems@);
        let ghost bare = self.bare_spec();
        let mut hits: Vec<(u64, String)> = Vec::new();
        let mut s = start;
        while s < end
            invariant
                self.wf(),
                start <= s <= end <= stems@.len(),
                ops == self.opening_texts(),
                ends == self.ending_texts(),
                sts == texts(stems@),
                bare == self.bare_spec(),
                filter.built_over(ids@),
                forall|id: u64| #[trigger] ids@.contains(id) <==> wanted@.contains_key(id),
                row_texts(hits@) == stem_finds(ops, ends, sts, bare, true, wanted@, start as int, s as int),
                forall|i: int|
                    0 <= i < hits@.len() ==> is_find(
                        ops,
                        ends,
                        sts,
                        bare,
                        true,
                        wanted@,
                        #[trigger] hits@[i].0,
                        hits@[i].1@,
                    ),
                forall|o: int, t: int, e: int|
                    #[trigger] in_space(ops, ends, sts, bare, o, t, e) && start <= t < s
                        && wanted@.contains_key(landed(dressed(ops, ends, sts, o, t, e), true))
                        ==> listed(
                        hits@,
                        landed(dressed(ops, ends, sts, o, t, e), true),
                        dressed(ops, ends, sts, o, t, e),
                    ),
            decreases end - s,
        {
            let piece = stems[s].as_str().as_bytes();
            let ghost done = row_texts(hits@);
            if self.bare {
                let plain = feed(BASIS, piece);
                proof {
                    lemma_empty_feeds_nothing(BASIS, true);
                }
                self.dress(Ghost(-1), s, plain, String::new(), stems, filter, ids, wanted, &mut hits);
            }
            assert(row_texts(hits@) =~= done + opening_finds(ops, ends, sts, bare, true, wanted@, s as int, 0));
            let mut o: usize = 0;
            while o < self.openings.len()
                invariant
                    done == stem_finds(ops, ends, sts, bare, true, wanted@, start as int, s as int),
                    row_texts(hits@) == done + opening_finds(
                        ops,
                        ends,
                        sts,
                        bare,
                        true,
                        wanted@,
                        s as int,
                        o as int,
                    ),
                    self.wf(),
                    start <= s < end <= stems@.len(),
                    o <= self.opening_texts().len(),
                    piece@ == encode_utf8(stems@[s as int]@),
                    ops == self.opening_texts(),
                    ends == self.ending_texts(),
                    sts == texts(stems@),
                    bare == self.bare_spec(),
                    filter.built_over(ids@),
                    forall|id: u64| #[trigger] ids@.contains(id) <==> wanted@.contains_key(id),
                    forall|i: int|
                        0 <= i < hits@.len() ==> is_find(
                            ops,
                            ends,
                            sts,
                            bare,
                            true,
                            wanted@,
                            #[trigger] hits@[i].0,
                            hits@[i].1@,
                        ),
                    forall|q: int, t: int, e: int|
                        #[trigger] in_space(ops, ends, sts, bare, q, t, e) && ((start <= t < s) || (
                        t == s && q < o)) && wanted@.contains_key(
                            landed(dressed(ops, ends, sts, q, t, e), true),
                        ) ==> listed(
                            hits@,
                            landed(dressed(ops, ends, sts, q, t, e), true),
                            dressed(ops, ends, sts, q, t, e),
                        ),
                decreases self.opening_texts().len() - o,
            {
                let prefixed = feed(self.openings[o].1, piece);
                let prefix = self.openings[o].0.clone();
                proof {
                    assert(self.openings@[o as int].1 == hash_of(ops[o as int], true));
                }
                self.dress(Ghost(o as int), s, prefixed, prefix, stems, filter, ids, wanted, &mut hits);
                assert(row_texts(hits@) =~= done + opening_finds(
                    ops,
                    ends,
                    sts,
                    bare,
                    true,
                    wanted@,
                    s as int,
                    o + 1,
                ));
                o = o + 1;
            }
            assert(row_texts(hits@) =~= stem_finds(
                ops,
                ends,
                sts,
                bare,
                true,
                wanted@,
                start as int,
                s + 1,
            ));
            s = s + 1;
        }
        hits
    }

    /// Tests one stem wearing one beginning (`o`, or none when `o` is `-1`), with no ending and
    /// then with each ending in turn. `state` is the hash of the beginning and stem together.
    fn dress(
        &self,
        o: Ghost<int>,
        s: usize,
        state: u64,
        prefix: String,
        stems: &[String],
        filter: &Filter,
        ids: &Vec<u64>,
        wanted: &HashMap<u64, usize>,
        hits: &mut Vec<(u64, String)>,
    )
        requires
            self.wf(),
            s < stems@.len(),
            o@ == -1 ==> self.bare_spec() && prefix@ == Seq::<char>::empty(),
            o@ != -1 ==> 0 <= o@ < self.opening_texts().len() && prefix@ == self.opening_texts()[o@],
            state == fold_bytes(
                fold_bytes(BASIS, encode_utf8(prefix@), true),
                encode_utf8(stems@[s as int]@),
                true,
            ),
            filter.built_over(ids@),
            forall|id: u64| #[trigger] ids@.contains(id) <==> wanted@.contains_key(id),
            forall|i: int|
                0 <= i < old(hits)@.len() ==> is_find(
                    self.opening_texts(),
                    self.ending_texts(),
                    texts(stems@),
                    self.bare_spec(),
                    true,
                    wanted@,
                    #[trigger] old(hits)@[i].0,
                    old(hits)@[i].1@,
                ),
        ensures
            row_texts(final(hits)@) == row_texts(old(hits)@) + ending_finds(
                self.opening_texts(),
                self.ending_texts(),
                texts(stems@),
                true,
                wanted@,
                o@,
                s as int,
                self.ending_texts().len() + 1int,
            ),
            forall|i: int|
                0 <= i < final(hits)@.len() ==> is_find(
                    self.opening_texts(),
                    self.ending_texts(),
                    texts(stems@),
                    self.bare_spec(),
                    true,
                    wanted@,
                    #[trigger] final(hits)@[i].0,
                    final(hits)@[i].1@,
                ),
            forall|id: u64, name: Seq<char>|
                #[trigger] listed(old(hits)@, id, name) ==> listed(final(hits)@, id, name),
            forall|e: int|
                -1 <= e < self.ending_texts().len() && wanted@.contains_key(
                    landed(
                        dressed(self.opening_texts(), self.ending_texts(), texts(stems@), o@, s as int, e),
                        true,
                    ),
                ) ==> #[trigger] listed(
                    final(hits)@,
                    landed(
                        dressed(self.opening_texts(), self.ending_texts(), texts(stems@), o@, s as int, e),
                        true,
                    ),
                    dressed(self.opening_texts(), self.ending_texts(), texts(stems@), o@, s as int, e),
                ),
    {
        let ghost ops = self.opening_texts();
        let ghost ends = self.ending_texts();
        let ghost sts = texts(stems@);
        let ghost bare = self.bare_spec();
        let ghost first = hits@;
        let mut base = prefix;
        base.append(stems[s].as_str());
        proof {
            assert(dressed(ops, ends, sts, o@, s as int, -1) =~= base@);
            lemma_dressed_hash(ops, ends, sts, o@, s as int, -1, true);
            lemma_empty_feeds_nothing(state, true);
            if wanted@.contains_key(state & ID_MASK) {
                lemma_candidate_found(ops, ends, sts, bare, true, wanted@, o@, s as int, -1);
            }
        }
        let named = base.clone();
        Self::test(state, named, filter, ids, wanted, hits);
        proof {
            if wanted@.contains_key(state & ID_MASK) {
                lemma_row_texts_push(first, (state & ID_MASK, named));
            }
            assert(ending_finds(ops, ends, sts, true, wanted@, o@, s as int, 0) =~= Seq::<
                (u64, Seq<char>),
            >::empty());
            assert(row_texts(hits@) =~= row_texts(first) + ending_finds(
                ops,
                ends,
                sts,
                true,
                wanted@,
                o@,
                s as int,
                1,
            ));
        }
        let mut e: usize = 0;
        while e < self.endings.len()
            invariant
                s < stems@.len(),
                e <= ends.len(),
                ends == self.ending_texts(),
                ends.len() == self.endings@.len(),
                forall|k: int| 0 <= k < ends.len() ==> #[trigger] ends[k] == self.endings@[k]@,
                sts == texts(stems@),
                o@ == -1 ==> bare,
                o@ != -1 ==> 0 <= o@ < ops.len(),
                base@ == dressed(ops, ends, sts, o@, s as int, -1),
                state == fold_bytes(
                    fold_bytes(BASIS, encode_utf8(prefix@), true),
                    encode_utf8(stems@[s as int]@),
                    true,
                ),
                o@ == -1 ==> prefix@ == Seq::<char>::empty(),
                o@ != -1 ==> prefix@ == ops[o@],
                filter.built_over(ids@),
                forall|id: u64| #[trigger] ids@.contains(id) <==> wanted@.contains_key(id),
                forall|i: int|
                    0 <= i < hits@.len() ==> is_find(
                        ops,
                        ends,
                        sts,
                        bare,
                        true,
                        wanted@,
                        #[trigger] hits@[i].0,
                        hits@[i].1@,
                    ),
                forall|id: u64, name: Seq<char>|
                    #[trigger] listed(first, id, name) ==> listed(hits@, id, name),
                row_texts(hits@) == row_texts(first) + ending_finds(
                    ops,
                    ends,
                    sts,
                    true,
                    wanted@,
                    o@,
                    s as int,
                    e + 1,
                ),
                forall|k: int|
                    -1 <= k < e && wanted@.contains_key(
                        landed(dressed(ops, ends, sts, o@, s as int, k), true),
                    ) ==> #[trigger] listed(
                        hits@,
                        landed(dressed(ops, ends, sts, o@, s as int, k), true),
                        dressed(ops, ends, sts, o@, s as int, k),
                    ),
            decreases ends.len() - e,
        {
            let ending = self.endings[e].as_str();
            let hash = feed(state, ending.as_bytes());
            let name = base.clone().concat(ending);
            let ghost before = hits@;
            proof {
                assert(ends[e as int] == self.endings@[e as int]@);
                assert(dressed(ops, ends, sts, o@, s as int, e as int) =~= name@);
                lemma_dressed_hash(ops, ends, sts, o@, s as int, e as int, true);
                if wanted@.contains_key(hash & ID_MASK) {
                    lemma_candidate_found(ops, ends, sts, bare, true, wanted@, o@, s as int, e as int);
                }
            }
            let ghost named_view = name@;
            let ghost entry = (hash & ID_MASK, name);
            Self::test(hash, name, filter, ids, wanted, hits);
            proof {
                if wanted@.contains_key(hash & ID_MASK) {
                    lemma_row_texts_push(before, entry);
                }
                assert(row_texts(hits@) =~= row_texts(first) + ending_finds(
                    ops,
                    ends,
                    sts,
                    true,
                    wanted@,
                    o@,
                    s as int,
                    e + 2,
                ));
                assert forall|k: int|
                    -1 <= k < e + 1 && wanted@.contains_key(
                        landed(dressed(ops, ends, sts, o@, s as int, k), true),
                    ) implies #[trigger] listed(
                        hits@,
                        landed(dressed(ops, ends, sts, o@, s as int, k), true),
                        dressed(ops, ends, sts, o@, s as int, k),
                    ) by {
                    if k < e {
                        assert(listed(
                            before,
                            landed(dressed(ops, ends, sts, o@, s as int, k), true),
                            dressed(ops, ends, sts, o@, s as int, k),
                        ));
                    }
                }
            }
            e = e + 1;
        }
    }
}

/// Whether `x` is one of the two hashes a wanted id's name could have had: the id itself, or the
/// id with bit 63 set, since the loader clears that bit.
pub open spec fn spelled(wanted: Map<u64, usize>, x: u64) -> bool {
    exists|id: u64| #[trigger] wanted.contains_key(id) && (x == id || x == id | !ID_MASK)
}

/// Whether `x` belongs in the peeled set for endings `start..end`: a spelling with one of those
/// endings taken off, or, when the candidate with no ending is being asked about, a spelling
/// itself.
pub open spec fn peeled_from(
    wanted: Map<u64, usize>,
    endings: Seq<Seq<char>>,
    start: int,
    end: int,
    no_ending: bool,
    fold: bool,
    x: u64,
) -> bool {
    ||| no_ending && spelled(wanted, x)
    ||| exists|sp: u64, j: int|
        spelled(wanted, sp) && start <= j < end && x == #[trigger] peel_bytes(
            sp,
            encode_utf8(endings[j]),
            fold,
        )
}

/// A hash whose masked id is wanted is one of that id's spellings.
proof fn lemma_spelled(wanted: Map<u64, usize>, hash: u64)
    requires
        wanted.contains_key(hash & ID_MASK),
    ensures
        spelled(wanted, hash),
{
    let id = hash & ID_MASK;
    assert(hash == id || hash == id | !ID_MASK) by (bit_vector)
        requires
            id == hash & 0x7FFF_FFFF_FFFF_FFFFu64,
    ;
    assert(wanted.contains_key(id));
}

/// Every spelling of every wanted id: each id, and each id with bit 63 set.
fn spellings(wanted: &HashMap<u64, usize>) -> (out: Vec<u64>)
    ensures
        forall|x: u64| #[trigger] out@.contains(x) <==> spelled(wanted@, x),
        out@.len() == 2 * wanted@.len(),
{
    let ids = wanted_ids(wanted);
    let mut out: Vec<u64> = Vec::new();
    let mut i: usize = 0;
    while i < ids.len()
        invariant
            i <= ids@.len(),
            ids@.len() == wanted@.len(),
            out@.len() == 2 * i,
            forall|id: u64| #[trigger] ids@.contains(id) <==> wanted@.contains_key(id),
            forall|k: int|
                0 <= k < i ==> #[trigger] out@[2 * k] == ids@[k] && out@[2 * k + 1] == ids@[k]
                    | !ID_MASK,
            forall|x: u64|
                #[trigger] out@.contains(x) <==> exists|k: int|
                    0 <= k < i && (x == #[trigger] ids@[k] || x == ids@[k] | !ID_MASK),
        decreases ids@.len() - i,
    {
        let id = ids[i];
        let ghost before = out@;
        out.push(id);
        out.push(id | !ID_MASK);
        proof {
            assert forall|k: int| 0 <= k < i + 1 implies #[trigger] out@[2 * k] == ids@[k] && out@[2
                * k + 1] == ids@[k] | !ID_MASK by {
                if k < i {
                    assert(before[2 * k] == ids@[k]);
                    assert(before[2 * k + 1] == ids@[k] | !ID_MASK);
                }
            }
            assert forall|x: u64| #[trigger] out@.contains(x) <==> exists|k: int|
                0 <= k < i + 1 && (x == #[trigger] ids@[k] || x == ids@[k] | !ID_MASK) by {
                if out@.contains(x) {
                    let p = choose|p: int| 0 <= p < out@.len() && out@[p] == x;
                    if p < before.len() {
                        assert(before[p] == x);
                        assert(before.contains(x));
                    } else {
                        assert(x == ids@[i as int] || x == ids@[i as int] | !ID_MASK);
                    }
                }
                if exists|k: int| 0 <= k < i + 1 && (x == #[trigger] ids@[k] || x == ids@[k] | !ID_MASK) {
                    let k = choose|k: int|
                        0 <= k < i + 1 && (x == #[trigger] ids@[k] || x == ids@[k] | !ID_MASK);
                    if k < i {
                        assert(before.contains(x));
                        let p = choose|p: int| 0 <= p < before.len() && before[p] == x;
                        assert(out@[p] == x);
                    } else if x == ids@[k] {
                        assert(out@[2 * i] == x);
                    } else {
                        assert(out@[2 * i + 1] == x);
                    }
                }
            }
        }
        i = i + 1;
    }
    proof {
        assert forall|x: u64| #[trigger] out@.contains(x) <==> spelled(wanted@, x) by {
            if out@.contains(x) {
                let k = choose|k: int|
                    0 <= k < ids@.len() && (x == #[trigger] ids@[k] || x == ids@[k] | !ID_MASK);
                assert(ids@.contains(ids@[k]));
                assert(wanted@.contains_key(ids@[k]));
            }
            if spelled(wanted@, x) {
                let id = choose|id: u64| #[trigger] wanted@.contains_key(id) && (x == id || x == id | !ID_MASK);
                assert(ids@.contains(id));
                let k = choose|k: int| 0 <= k < ids@.len() && ids@[k] == id;
                assert(x == ids@[k] || x == ids@[k] | !ID_MASK);
            }
        }
    }
    out
}

/// Sorts a list of hashes into ascending order.
///
/// Calls `slice::sort_unstable`, which std documents as sorting the slice: what comes out is the
/// same values, in ascending order. Which of two equal values comes first is not said, and does
/// not matter for `u64`.
#[verifier::external_body]
pub(crate) fn sort_hashes(list: &mut Vec<u64>)
    ensures
        final(list)@.to_multiset() == old(list)@.to_multiset(),
        ascending(final(list)@),
{
    list.sort_unstable();
}

/// A sorted list with each value once: what removing the repeats from it leaves.
pub(crate) fn deduplicated(list: &Vec<u64>) -> (out: Vec<u64>)
    requires
        ascending(list@),
    ensures
        ascending(out@),
        forall|i: int, j: int| 0 <= i < j < out@.len() ==> out@[i] < out@[j],
        forall|x: u64| #[trigger] out@.contains(x) <==> list@.contains(x),
{
    let mut out: Vec<u64> = Vec::new();
    let mut i: usize = 0;
    while i < list.len()
        invariant
            i <= list@.len(),
            ascending(list@),
            forall|a: int, b: int| 0 <= a < b < out@.len() ==> out@[a] < out@[b],
            i == 0 <==> out@.len() == 0,
            i > 0 ==> out@.last() == list@[i - 1],
            forall|x: u64| #[trigger] out@.contains(x) <==> list@.subrange(0, i as int).contains(x),
        decreases list@.len() - i,
    {
        let value = list[i];
        let ghost before = out@;
        if out.len() == 0 || out[out.len() - 1] != value {
            out.push(value);
        }
        proof {
            let prev = list@.subrange(0, i as int);
            let next = list@.subrange(0, i + 1);
            assert forall|x: u64| #[trigger] out@.contains(x) <==> next.contains(x) by {
                if out@.contains(x) {
                    let p = choose|p: int| 0 <= p < out@.len() && out@[p] == x;
                    if p < before.len() {
                        assert(before.contains(x));
                        let q: int = choose|q: int| 0 <= q < i && prev[q] == x;
                        assert(next[q] == x);
                    } else {
                        assert(next[i as int] == x);
                    }
                }
                if next.contains(x) {
                    let q: int = choose|q: int| 0 <= q < i + 1 && next[q] == x;
                    if q < i {
                        assert(prev[q] == x);
                        assert(before.contains(x));
                        let p = choose|p: int| 0 <= p < before.len() && before[p] == x;
                        assert(out@[p] == x);
                    } else if before.len() > 0 && before.last() == value {
                        assert(out@[before.len() - 1] == x);
                    } else {
                        assert(out@[before.len() as int] == x);
                    }
                }
            }
        }
        i = i + 1;
    }
    assert(list@.subrange(0, list@.len() as int) =~= list@);
    out
}

/// One batch of endings, peeled off every wanted id.
struct Peeled {
    /// Every hash a stem-and-beginning would have to reach, sorted so it can be searched.
    hashes: Vec<u64>,
    filter: Filter,
}

impl Peeled {
    /// The list is in order and the filter was built over it.
    spec fn wf(&self) -> bool {
        &&& ascending(self.hashes@)
        &&& self.filter.built_over(self.hashes@)
    }

    /// Peels endings `start..end` of `endings` off every wanted id.
    ///
    /// `no_ending` asks for the id itself as well, un-peeled, which is the candidate that has no
    /// ending on it. That is a separate question from whether a stem may stand with no beginning:
    /// one is about the end of a name and the other about its start.
    fn build<B: Backend>(
        backend: &B,
        wanted: &HashMap<u64, usize>,
        endings: &[String],
        start: usize,
        end: usize,
        no_ending: bool,
        fold: bool,
    ) -> (peeled: Self)
        requires
            start <= end <= endings@.len(),
            packed_len(endings@.subrange(start as int, end as int), end - start) + PACKED_BYTES
                <= u32::MAX,
            2 * wanted@.len() * ((end - start) + if no_ending { 1int } else { 0int })
                <= usize::MAX,
        ensures
            peeled.wf(),
            forall|x: u64|
                #[trigger] peeled.hashes@.contains(x) <==> peeled_from(
                    wanted@,
                    texts(endings@),
                    start as int,
                    end as int,
                    no_ending,
                    fold,
                    x,
                ),
    {
        // The id has had bit 63 cleared, so the name hashed to one of two values and both have
        // to be peeled.
        let spellings = spellings(wanted);
        let packed = StemBatch::pack_range(endings, start, end, fold);
        let request = PeelRequest { spellings: spellings.as_slice(), endings: &packed, no_ending };
        let mut hashes = match backend.peel(&request) {
            Ok(peeled) => peeled,
            Err(_) => peel_all(&request),
        };
        proof {
            assert forall|x: u64| #[trigger] hashes@.contains(x) <==> peeled_from(
                wanted@,
                texts(endings@),
                start as int,
                end as int,
                no_ending,
                fold,
                x,
            ) by {
                lemma_peel_rows_contain(&request, x);
                if hashes@.contains(x) && !(no_ending && spellings@.contains(x)) {
                    let (s, j) = choose|s: int, j: int|
                        0 <= s < spellings@.len() && 0 <= j < packed.count() && x
                            == #[trigger] plain_peel(spellings@[s], packed.stem(j));
                    lemma_plain_fold_normalised(
                        spellings@[s],
                        encode_utf8(endings@[start + j]@),
                        fold,
                    );
                    assert(spellings@.contains(spellings@[s]));
                    assert(texts(endings@)[start + j] == endings@[start + j]@);
                    assert(x == peel_bytes(
                        spellings@[s],
                        encode_utf8(texts(endings@)[start + j]),
                        fold,
                    ));
                }
                if peeled_from(wanted@, texts(endings@), start as int, end as int, no_ending, fold, x)
                    && !(no_ending && spelled(wanted@, x)) {
                    let (sp, j) = choose|sp: u64, j: int|
                        spelled(wanted@, sp) && start <= j < end && x == #[trigger] peel_bytes(
                            sp,
                            encode_utf8(texts(endings@)[j]),
                            fold,
                        );
                    assert(spellings@.contains(sp));
                    let s = choose|s: int| 0 <= s < spellings@.len() && spellings@[s] == sp;
                    lemma_plain_fold_normalised(sp, encode_utf8(endings@[j]@), fold);
                    assert(packed.stem(j - start) == normalised(encode_utf8(endings@[j]@), fold));
                    assert(x == plain_peel(spellings@[s], packed.stem(j - start)));
                }
            }
        }
        let ghost peeled = hashes@;
        sort_hashes(&mut hashes);
        proof {
            broadcast use vstd::seq_lib::group_to_multiset_ensures;

            assert forall|x: u64| #[trigger] hashes@.contains(x) <==> peeled.contains(x) by {
                assert(hashes@.to_multiset().count(x) == peeled.to_multiset().count(x));
            }
        }
        let hashes = deduplicated(&hashes);
        let filter = Filter::sized(hashes.as_slice(), hashes.len());
        Peeled { hashes, filter }
    }

    /// The set as a backend has to see it: a sorted list and the bitmaps over it.
    fn as_port(&self) -> (port: PeeledSet<'_>)
        requires
            self.wf(),
        ensures
            port.wf(),
            forall|hash: u64| #[trigger] port.admits(hash) == self.hashes@.contains(hash),
    {
        let (coarse, fine, coarse_bits, fine_bits) = self.filter.parts();
        let port = PeeledSet { hashes: self.hashes.as_slice(), coarse, fine, coarse_bits, fine_bits };
        proof {
            assert forall|hash: u64| #[trigger] port.admits(hash) == self.hashes@.contains(hash) by {
                if self.hashes@.contains(hash) {
                    law_never_rejects_a_held_id(&self.filter, self.hashes@, hash);
                }
            }
        }
        port
    }
}

/// How many entries a batch of peeled endings is allowed to reach.
///
/// The peeled set is held as a sorted list of hashes, eight bytes each, and the filter over it
/// wants another byte or so per entry. Sixty million is about half a gigabyte all told, which
/// leaves room on a machine that is also running the loader.
pub const PEELED_BATCH: usize = 60_000_000;

/// How many stems are handed to the backend in one go.
///
/// The granularity of the progress report and of the peak memory a device is asked for: large
/// enough that a launch is worth its own setup cost, small enough that a small card is never
/// asked for a gigabyte of stems.
pub const STEM_CHUNK: usize = 0x10_0000;

/// The hash a stem reaches wearing beginning `o` (none for `-1`), before any ending.
pub open spec fn stem_state(
    openings: Seq<Seq<char>>,
    stems: Seq<Seq<char>>,
    o: int,
    s: int,
    fold: bool,
) -> u64 {
    hash_of(dressed(openings, Seq::empty(), stems, o, s, -1), fold)
}

/// The beginning index a hit carries for beginning `o`: `BARE_OPENING` for none.
pub open spec fn hit_opening(o: int) -> int {
    if o == -1 {
        BARE_OPENING as int
    } else {
        o
    }
}

/// The stem a mark names.
pub open spec fn mark_stem(m: u64) -> int {
    (m >> 32u64) as int
}

/// The beginning a mark names: `-1` for the bare stem.
pub open spec fn mark_opening(m: u64) -> int {
    if m & 0xFFFF_FFFFu64 == BARE_OPENING {
        -1
    } else {
        (m & 0xFFFF_FFFFu64) as int
    }
}

/// Whether a mark names one of `openings` beginnings, or the bare stem where that is asked about.
pub open spec fn mark_ok(m: u64, openings: int, bare: bool) -> bool {
    ||| m & 0xFFFF_FFFFu64 == BARE_OPENING && bare
    ||| ((m & 0xFFFF_FFFFu64) as int) < openings
}

/// Every candidate in `picks` comes from one of the first `i` marks of `reached`, the one
/// `source` names.
spec fn sourced(picks: Seq<(int, int, int)>, source: Seq<int>, reached: Seq<u64>, i: int) -> bool {
    &&& source.len() == picks.len()
    &&& forall|j: int|
        0 <= j < picks.len() ==> 0 <= #[trigger] source[j] < i && picks[j].0 == mark_opening(
            reached[source[j]],
        ) && picks[j].1 == mark_stem(reached[source[j]])
}

/// Candidates from mark `i`, none twice, join those from earlier marks with no candidate twice.
proof fn lemma_picks_grow(
    picks: Seq<(int, int, int)>,
    source: Seq<int>,
    added: Seq<(int, int, int)>,
    reached: Seq<u64>,
    i: int,
)
    requires
        picks.no_duplicates(),
        added.no_duplicates(),
        reached.no_duplicates(),
        0 <= i < reached.len(),
        sourced(picks, source, reached, i),
        forall|q: int|
            0 <= q < added.len() ==> #[trigger] added[q].0 == mark_opening(reached[i]) && added[q].1
                == mark_stem(reached[i]),
    ensures
        (picks + added).no_duplicates(),
        sourced(picks + added, source + Seq::new(added.len(), |q: int| i), reached, i + 1),
{
    assert forall|p: int, q: int| 0 <= p < picks.len() && 0 <= q < added.len() implies picks[p]
        != added[q] by {
        lemma_pick_sources_differ(reached, source[p], i);
    }
    vstd::seq_lib::lemma_no_dup_in_concat(picks, added);
    let all = picks + added;
    let from = source + Seq::new(added.len(), |q: int| i);
    assert forall|j: int| 0 <= j < all.len() implies 0 <= #[trigger] from[j] < i + 1 && all[j].0
        == mark_opening(reached[from[j]]) && all[j].1 == mark_stem(reached[from[j]]) by {
        if j < picks.len() {
            assert(from[j] == source[j]);
            assert(all[j] == picks[j]);
        } else {
            assert(from[j] == i);
            assert(all[j] == added[j - picks.len()]);
        }
    }
}

/// What naming the first `i` marks of `reached` has given: each entry of `named` reports the
/// candidate `picks` says it does, one of this batch's, taken from the mark `source` says; no
/// candidate twice; and every wanted candidate of this batch on those marks among them.
#[verifier::opaque]
spec fn named_from(
    named: Seq<(u64, String)>,
    picks: Seq<(int, int, int)>,
    source: Seq<int>,
    reached: Seq<u64>,
    i: int,
    openings: Seq<Seq<char>>,
    endings: Seq<Seq<char>>,
    stems: Seq<Seq<char>>,
    bare: bool,
    fold: bool,
    wanted: Map<u64, usize>,
    start: int,
    end: int,
    first: bool,
) -> bool {
    &&& picks.len() == named.len()
    &&& forall|j: int|
        0 <= j < named.len() ==> reports_candidate(
            #[trigger] named[j],
            picks[j],
            openings,
            endings,
            stems,
            bare,
            fold,
            wanted,
        ) && in_batch(picks[j].2, start, end, first)
    &&& sourced(picks, source, reached, i)
    &&& picks.no_duplicates()
    &&& forall|h: int, e: int|
        0 <= h < i && mark_stem(reached[h]) < stems.len() && in_batch(e, start, end, first)
            && wanted.contains_key(
            landed(dressed(openings, endings, stems, mark_opening(reached[h]), mark_stem(reached[h]), e), fold),
        ) ==> #[trigger] picks.contains((mark_opening(reached[h]), mark_stem(reached[h]), e))
}

/// Naming mark `i` adds its candidates, and what the first `i` marks gave still holds of the
/// first `i + 1`.
proof fn lemma_named_step(
    before: Seq<(u64, String)>,
    named: Seq<(u64, String)>,
    picks: Seq<(int, int, int)>,
    source: Seq<int>,
    added: Seq<(int, int, int)>,
    reached: Seq<u64>,
    i: int,
    openings: Seq<Seq<char>>,
    endings: Seq<Seq<char>>,
    stems: Seq<Seq<char>>,
    bare: bool,
    fold: bool,
    wanted: Map<u64, usize>,
    start: int,
    end: int,
    first: bool,
)
    requires
        named_from(before, picks, source, reached, i, openings, endings, stems, bare, fold, wanted, start, end, first),
        reached.no_duplicates(),
        0 <= i < reached.len(),
        named.len() == before.len() + added.len(),
        named.subrange(0, before.len() as int) == before,
        forall|j: int|
            0 <= j < added.len() ==> reports_candidate(
                named[before.len() + j],
                #[trigger] added[j],
                openings,
                endings,
                stems,
                bare,
                fold,
                wanted,
            ) && added[j].0 == mark_opening(reached[i]) && added[j].1 == mark_stem(reached[i])
                && in_batch(added[j].2, start, end, first),
        added.no_duplicates(),
        forall|e: int|
            mark_stem(reached[i]) < stems.len() && in_batch(e, start, end, first) && wanted.contains_key(
                landed(dressed(openings, endings, stems, mark_opening(reached[i]), mark_stem(reached[i]), e), fold),
            ) ==> #[trigger] added.contains((mark_opening(reached[i]), mark_stem(reached[i]), e)),
    ensures
        named_from(
            named,
            picks + added,
            source + Seq::new(added.len(), |q: int| i),
            reached,
            i + 1,
            openings,
            endings,
            stems,
            bare,
            fold,
            wanted,
            start,
            end,
            first,
        ),
{
    reveal(named_from);
    assert forall|q: int| 0 <= q < added.len() implies #[trigger] added[q].0 == mark_opening(reached[i])
        && added[q].1 == mark_stem(reached[i]) by {
    }
    lemma_picks_grow(picks, source, added, reached, i);
    let all = picks + added;
    assert forall|j: int| 0 <= j < named.len() implies reports_candidate(
        #[trigger] named[j],
        all[j],
        openings,
        endings,
        stems,
        bare,
        fold,
        wanted,
    ) && in_batch(all[j].2, start, end, first) by {
        if j < before.len() {
            assert(named[j] == named.subrange(0, before.len() as int)[j]);
            assert(all[j] == picks[j]);
        } else {
            assert(all[j] == added[j - before.len()]);
            assert(named[before.len() + (j - before.len())] == named[j]);
        }
    }
    assert forall|h: int, e: int|
        0 <= h < i + 1 && mark_stem(reached[h]) < stems.len() && in_batch(e, start, end, first)
            && wanted.contains_key(
            landed(dressed(openings, endings, stems, mark_opening(reached[h]), mark_stem(reached[h]), e), fold),
        ) implies #[trigger] all.contains((mark_opening(reached[h]), mark_stem(reached[h]), e)) by {
        let c = (mark_opening(reached[h]), mark_stem(reached[h]), e);
        if h < i {
            assert(picks.contains(c));
            let q: int = choose|q: int| 0 <= q < picks.len() && picks[q] == c;
            assert(all[q] == picks[q]);
        } else {
            assert(added.contains(c));
            let q: int = choose|q: int| 0 <= q < added.len() && added[q] == c;
            assert(all[picks.len() + q] == added[q]);
        }
    }
}

/// What the rounds before `start` have found: each entry reports the candidate `picks` says, no
/// candidate twice, every one with an ending before `start` (or none, once the first round is
/// done), and every wanted candidate of those rounds among them.
#[verifier::opaque]
spec fn found_before(
    found: Seq<(u64, String)>,
    picks: Seq<(int, int, int)>,
    openings: Seq<Seq<char>>,
    endings: Seq<Seq<char>>,
    stems: Seq<Seq<char>>,
    bare: bool,
    fold: bool,
    wanted: Map<u64, usize>,
    start: int,
    first: bool,
) -> bool {
    &&& picks.len() == found.len()
    &&& forall|j: int|
        0 <= j < found.len() ==> reports_candidate(
            #[trigger] found[j],
            picks[j],
            openings,
            endings,
            stems,
            bare,
            fold,
            wanted,
        )
    &&& picks.no_duplicates()
    &&& forall|j: int| 0 <= j < picks.len() ==> #[trigger] picks[j].2 < start && !first
    &&& forall|o: int, s: int, e: int|
        #[trigger] in_space(openings, endings, stems, bare, o, s, e) && !first && e < start
            && wanted.contains_key(landed(dressed(openings, endings, stems, o, s, e), fold))
            ==> picks.contains((o, s, e))
}

/// A round over endings `start..end` adds what it found to what came before, still with no
/// candidate twice.
proof fn lemma_found_step(
    found: Seq<(u64, String)>,
    picks: Seq<(int, int, int)>,
    fresh: Seq<(u64, String)>,
    fresh_picks: Seq<(int, int, int)>,
    openings: Seq<Seq<char>>,
    endings: Seq<Seq<char>>,
    stems: Seq<Seq<char>>,
    bare: bool,
    fold: bool,
    wanted: Map<u64, usize>,
    start: int,
    end: int,
    first: bool,
)
    requires
        found_before(found, picks, openings, endings, stems, bare, fold, wanted, start, first),
        first ==> start == 0,
        start <= end,
        fresh_picks.len() == fresh.len(),
        forall|j: int|
            0 <= j < fresh.len() ==> reports_candidate(
                #[trigger] fresh[j],
                fresh_picks[j],
                openings,
                endings,
                stems,
                bare,
                fold,
                wanted,
            ) && in_batch(fresh_picks[j].2, start, end, first),
        fresh_picks.no_duplicates(),
        forall|o: int, s: int, e: int|
            #[trigger] in_space(openings, endings, stems, bare, o, s, e) && in_batch(e, start, end, first)
                && wanted.contains_key(landed(dressed(openings, endings, stems, o, s, e), fold))
                ==> fresh_picks.contains((o, s, e)),
    ensures
        found_before(
            found + fresh,
            picks + fresh_picks,
            openings,
            endings,
            stems,
            bare,
            fold,
            wanted,
            end,
            false,
        ),
{
    reveal(found_before);
    let all = picks + fresh_picks;
    let rows = found + fresh;
    assert forall|p: int, q: int| 0 <= p < picks.len() && 0 <= q < fresh_picks.len() implies picks[p]
        != fresh_picks[q] by {
        assert(picks[p].2 < start);
        assert(reports_candidate(fresh[q], fresh_picks[q], openings, endings, stems, bare, fold, wanted));
    }
    vstd::seq_lib::lemma_no_dup_in_concat(picks, fresh_picks);
    assert forall|j: int| 0 <= j < rows.len() implies reports_candidate(
        #[trigger] rows[j],
        all[j],
        openings,
        endings,
        stems,
        bare,
        fold,
        wanted,
    ) by {
        if j < found.len() {
            assert(rows[j] == found[j]);
            assert(all[j] == picks[j]);
        } else {
            assert(rows[j] == fresh[j - found.len()]);
            assert(all[j] == fresh_picks[j - found.len()]);
        }
    }
    assert forall|j: int| 0 <= j < all.len() implies #[trigger] all[j].2 < end && !false by {
        if j < picks.len() {
            assert(all[j] == picks[j]);
        } else {
            assert(all[j] == fresh_picks[j - picks.len()]);
            assert(reports_candidate(fresh[j - picks.len()], fresh_picks[j - picks.len()], openings, endings, stems, bare, fold, wanted));
        }
    }
    assert forall|o: int, s: int, e: int|
        #[trigger] in_space(openings, endings, stems, bare, o, s, e) && !false && e < end
            && wanted.contains_key(landed(dressed(openings, endings, stems, o, s, e), fold))
            implies all.contains((o, s, e)) by {
        if !first && e < start {
            assert(picks.contains((o, s, e)));
            let q: int = choose|q: int| 0 <= q < picks.len() && picks[q] == (o, s, e);
            assert(all[q] == picks[q]);
        } else {
            assert(in_batch(e, start, end, first));
            assert(fresh_picks.contains((o, s, e)));
            let q: int = choose|q: int| 0 <= q < fresh_picks.len() && fresh_picks[q] == (o, s, e);
            assert(all[picks.len() + q] == fresh_picks[q]);
        }
    }
}

/// A mark is known by the stem and the beginning it names.
proof fn lemma_mark_decodes(a: u64, b: u64)
    requires
        mark_stem(a) == mark_stem(b),
        mark_opening(a) == mark_opening(b),
    ensures
        a == b,
{
    assert(a & 0xFFFF_FFFFu64 == b & 0xFFFF_FFFFu64);
    assert(a >> 32u64 == b >> 32u64);
    assert((a >> 32u64 == b >> 32u64 && a & 0xFFFF_FFFFu64 == b & 0xFFFF_FFFFu64) ==> a == b) by (bit_vector);
}

/// Candidates taken from two different marks of a list without repeats are different
/// candidates.
proof fn lemma_pick_sources_differ(reached: Seq<u64>, h: int, i: int)
    requires
        reached.no_duplicates(),
        0 <= h < i < reached.len(),
    ensures
        mark_opening(reached[h]) != mark_opening(reached[i]) || mark_stem(reached[h]) != mark_stem(
            reached[i],
        ),
{
    if mark_opening(reached[h]) == mark_opening(reached[i]) && mark_stem(reached[h]) == mark_stem(reached[i]) {
        lemma_mark_decodes(reached[h], reached[i]);
    }
}

/// Whether every run of at most `size` consecutive texts, packed, fits the 32-bit offsets a
/// batch is addressed by.
pub open spec fn pieces_fit(list: Seq<String>, size: int) -> bool {
    forall|a: int, b: int|
        0 <= a <= b <= list.len() && b - a <= size ==> #[trigger] packed_len(
            list.subrange(a, b),
            b - a,
        ) + PACKED_BYTES <= u32::MAX
}

/// How many bytes the texts `list[a..b]` take, packed.
pub open spec fn window(list: Seq<String>, a: int, b: int) -> int {
    packed_len(list.subrange(a, b), b - a)
}

/// A window grows by the text added at its end.
proof fn lemma_window_push(list: Seq<String>, a: int, b: int)
    requires
        0 <= a <= b < list.len(),
    ensures
        window(list, a, b + 1) == window(list, a, b) + encode_utf8(list[b]@).len(),
{
    assert(list.subrange(a, b + 1)[b - a] == list[b]);
    lemma_packed_prefix(list.subrange(a, b + 1), list.subrange(a, b), b - a);
}

/// Packing a list's first `n` texts is packing the same `n` texts of any list that starts with
/// them.
proof fn lemma_packed_prefix(long: Seq<String>, short: Seq<String>, n: int)
    requires
        0 <= n <= short.len(),
        n <= long.len(),
        forall|i: int| 0 <= i < n ==> long[i] == short[i],
    ensures
        packed_len(long, n) == packed_len(short, n),
    decreases n,
{
    if n > 0 {
        lemma_packed_prefix(long, short, n - 1);
    }
}

/// A window shrinks by the text taken off its start.
proof fn lemma_window_pop(list: Seq<String>, a: int, b: int)
    requires
        0 <= a < b <= list.len(),
    ensures
        window(list, a, b) == encode_utf8(list[a]@).len() + window(list, a + 1, b),
    decreases b - a,
{
    if b == a + 1 {
        assert(list.subrange(a + 1, b).len() == 0);
        lemma_window_push(list, a, a);
        assert(packed_len(list.subrange(a, a), 0) == 0);
    } else {
        lemma_window_pop(list, a, b - 1);
        lemma_window_push(list, a, b - 1);
        lemma_window_push(list, a + 1, b - 1);
    }
}

/// A window holds at least what any window inside it holds.
proof fn lemma_window_inside(list: Seq<String>, a: int, b: int, c: int, d: int)
    requires
        0 <= a <= c <= d <= b <= list.len(),
    ensures
        window(list, c, d) <= window(list, a, b),
    decreases (b - a) - (d - c),
{
    if b > d {
        lemma_window_push(list, a, b - 1);
        lemma_window_inside(list, a, b - 1, c, d);
    } else if a < c {
        lemma_window_pop(list, a, b);
        lemma_window_inside(list, a + 1, b, c, d);
    }
}

/// Where a window of at most `size` texts from `start` ends, in a list of `n`.
pub open spec fn reach(start: int, size: int, n: int) -> int {
    if start + size < n {
        start + size
    } else {
        n
    }
}

/// Whether every run of at most `size` consecutive texts of `list`, packed, fits the 32-bit
/// offsets a batch is addressed by: [`pieces_fit`], checked.
pub fn fits_in_pieces(list: &[String], size: usize) -> (out: bool)
    ensures
        out == pieces_fit(list@, size as int),
{
    let n = list.len();
    let ghost l = list@;
    let limit: u64 = 0xFFFF_FFFF - PACKED_BYTES as u64;
    if size == 0 {
        assert forall|a: int, b: int| 0 <= a <= b <= l.len() && b - a <= size implies #[trigger] packed_len(
            l.subrange(a, b),
            b - a,
        ) + PACKED_BYTES <= u32::MAX by {
            assert(b == a);
        }
        return true;
    }
    let mut a: usize = 0;
    let mut e: usize = 0;
    let mut sum: u64 = 0;
    assert(window(l, 0, 0) == 0);
    while a < n
        invariant
            n == l.len(),
            l == list@,
            size >= 1,
            limit == u32::MAX - PACKED_BYTES,
            a <= e <= n,
            e <= a + size,
            sum == window(l, a as int, e as int),
            sum <= limit,
            forall|s: int| 0 <= s < a ==> #[trigger] window(l, s, reach(s, size as int, n as int)) <= limit,
        decreases n - a,
    {
        while e < n && e - a < size
            invariant
                n == l.len(),
                l == list@,
                limit == u32::MAX - PACKED_BYTES,
                size >= 1,
                a < n,
                a <= e <= n,
                e <= a + size,
                sum == window(l, a as int, e as int),
                sum <= limit,
            decreases n - e,
        {
            let bytes = list[e].as_str().as_bytes().len() as u64;
            proof {
                lemma_window_push(l, a as int, e as int);
            }
            if bytes > limit - sum {
                assert(packed_len(l.subrange(a as int, e + 1), e + 1 - a) + PACKED_BYTES > u32::MAX);
                return false;
            }
            sum = sum + bytes;
            e = e + 1;
        }
        proof {
            assert(e as int == reach(a as int, size as int, n as int));
            lemma_window_pop(l, a as int, e as int);
            lemma_window_inside(l, a + 1, e as int, a + 1, a + 1);
        }
        let first = list[a].as_str().as_bytes().len() as u64;
        sum = sum - first;
        a = a + 1;
    }
    assert forall|x: int, y: int| 0 <= x <= y <= l.len() && y - x <= size implies #[trigger] packed_len(
        l.subrange(x, y),
        y - x,
    ) + PACKED_BYTES <= u32::MAX by {
        if x < n {
            let end = reach(x, size as int, n as int);
            assert(window(l, x, end) <= limit);
            lemma_window_inside(l, x, end, x, y);
        } else {
            assert(l.subrange(x, y).len() == 0);
            assert(packed_len(l.subrange(x, y), y - x) == 0);
        }
    }
    true
}

/// How many endings go into one peeled batch when `wanted` ids are being looked for: as many as
/// keep the batch under [`PEELED_BATCH`] entries, two per id, and never fewer than one.
pub open spec fn ending_batch(wanted: nat) -> int {
    let per_id = 2 * if wanted == 0 {
        1
    } else {
        wanted as int
    };
    if (PEELED_BATCH as int) / per_id == 0 {
        1
    } else {
        (PEELED_BATCH as int) / per_id
    }
}

/// What the stem-and-beginning hash is, in terms of the beginning's own hash.
proof fn lemma_stem_state(
    openings: Seq<Seq<char>>,
    stems: Seq<Seq<char>>,
    o: int,
    s: int,
    fold: bool,
)
    ensures
        stem_state(openings, stems, o, s, fold) == fold_bytes(
            if o < 0 {
                BASIS
            } else {
                hash_of(openings[o], fold)
            },
            encode_utf8(stems[s]),
            fold,
        ),
        stem_state(openings, stems, o, s, fold) == hash_of(
            (if o < 0 {
                Seq::<char>::empty()
            } else {
                openings[o]
            }) + stems[s],
            fold,
        ),
{
    let p = if o < 0 {
        Seq::<char>::empty()
    } else {
        openings[o]
    };
    assert(dressed(openings, Seq::empty(), stems, o, s, -1) =~= p + stems[s]);
    lemma_hash_concat(BASIS, p, stems[s], fold);
    lemma_empty_feeds_nothing(BASIS, fold);
}

/// A round of at most [`ending_batch`] endings, with the no-ending candidate or without, asks a
/// peel the machine can address.
proof fn lemma_batch_fits(wanted: nat, width: int, first: bool)
    requires
        0 <= width <= ending_batch(wanted),
        4 * wanted + PEELED_BATCH <= usize::MAX,
    ensures
        2 * wanted * (width + if first { 1int } else { 0int }) <= usize::MAX,
{
    let rows = width + if first { 1int } else { 0int };
    let batch = ending_batch(wanted);
    if wanted == 0 {
        assert(2 * wanted * rows == 0) by (nonlinear_arith)
            requires
                wanted == 0,
        ;
    } else {
        let per_id: int = 2 * (wanted as int);
        let share = (PEELED_BATCH as int) / per_id;
        assert(batch == if share == 0 { 1 } else { share });
        assert(per_id * share <= PEELED_BATCH) by (nonlinear_arith)
            requires
                per_id > 0,
                share == (PEELED_BATCH as int) / per_id,
        ;
        if share == 0 {
            assert(rows <= 2);
            assert(2 * wanted * rows <= 4 * wanted) by (nonlinear_arith)
                requires
                    rows <= 2,
                    wanted >= 0,
            ;
        } else {
            assert(rows <= share + 1);
            assert(2 * wanted * rows <= per_id * share + per_id) by (nonlinear_arith)
                requires
                    rows <= share + 1,
                    per_id == 2 * wanted,
                    wanted >= 0,
            ;
        }
    }
}

/// How many endings go into one peeled batch: [`ending_batch`], computed.
pub fn ending_batch_for(wanted: usize) -> (batch: usize)
    requires
        wanted * 2 <= usize::MAX,
    ensures
        batch == ending_batch(wanted as nat),
        batch >= 1,
{
    let per_id = if wanted == 0 { 1 } else { wanted } * 2;
    let batch = PEELED_BATCH / per_id;
    if batch == 0 {
        1
    } else {
        batch
    }
}

/// Tests one candidate against the wanted ids, keeping it when it is one.
fn keep(hash: u64, name: String, wanted: &HashMap<u64, usize>, named: &mut Vec<(u64, String)>)
    ensures
        final(named)@ == if wanted@.contains_key(hash & ID_MASK) {
            old(named)@.push((hash & ID_MASK, name))
        } else {
            old(named)@
        },
        forall|id: u64, text: Seq<char>|
            #[trigger] listed(old(named)@, id, text) ==> listed(final(named)@, id, text),
        wanted@.contains_key(hash & ID_MASK) ==> listed(final(named)@, hash & ID_MASK, name@),
{
    let id = hash & ID_MASK;
    let ghost before = named@;
    let ghost entry = (id, name);
    if wanted.contains_key(&id) {
        named.push((id, name));
        proof {
            lemma_listed_last(before, entry);
            assert forall|id: u64, text: Seq<char>| #[trigger]
                listed(before, id, text) implies listed(named@, id, text) by {
                lemma_listed_push(before, entry, id, text);
            }
        }
    }
}

/// Batches put end to end, in order.
pub open spec fn joined(batches: Seq<Seq<(u64, String)>>) -> Seq<(u64, String)>
    decreases batches.len(),
{
    if batches.len() == 0 {
        Seq::empty()
    } else {
        joined(batches.drop_last()) + batches.last()
    }
}

/// Somewhere a long search leaves what it has found so far.
///
/// [`Meet::run_checkpointed`] calls `keep` once per batch of endings that found anything, with
/// that batch's finds, while the search goes on. [`Handing`] is the one to use: it hands each
/// batch to a function of the caller's.
pub trait Checkpoint {
    /// Every batch handed over so far, in the order it was handed over.
    spec fn kept(&self) -> Seq<Seq<(u64, String)>>;

    /// Takes one batch of finds.
    fn keep(&mut self, found: &[(u64, String)])
        ensures
            final(self).kept() == old(self).kept().push(found@),
    ;
}

/// A checkpoint that keeps nothing: the finds come back at the end and nowhere else. What it
/// was handed is remembered only in the proof.
struct Discard {
    handed: Ghost<Seq<Seq<(u64, String)>>>,
}

impl Checkpoint for Discard {
    closed spec fn kept(&self) -> Seq<Seq<(u64, String)>> {
        self.handed@
    }

    fn keep(&mut self, found: &[(u64, String)]) {
        self.handed = Ghost(self.handed@.push(found@));
    }
}

/// A checkpoint that hands each batch of finds to a function as it comes, and remembers in the
/// proof every batch it handed over.
pub struct Handing<F: Fn(&[(u64, String)])> {
    to: F,
    handed: Ghost<Seq<Seq<(u64, String)>>>,
}

impl<F: Fn(&[(u64, String)])> Handing<F> {
    /// The function takes any batch.
    #[verifier::type_invariant]
    spec fn takes_any(self) -> bool {
        forall|found: &[(u64, String)]| #[trigger] self.to.requires((found,))
    }

    /// A checkpoint that hands each batch to `to`; nothing is handed over yet.
    pub fn new(to: F) -> (out: Self)
        requires
            forall|found: &[(u64, String)]| #[trigger] to.requires((found,)),
        ensures
            out.kept() == Seq::<Seq<(u64, String)>>::empty(),
    {
        Handing { to, handed: Ghost(Seq::empty()) }
    }
}

impl<F: Fn(&[(u64, String)])> Checkpoint for Handing<F> {
    closed spec fn kept(&self) -> Seq<Seq<(u64, String)>> {
        self.handed@
    }

    fn keep(&mut self, found: &[(u64, String)]) {
        proof {
            use_type_invariant(&*self);
        }
        (self.to)(found);
        self.handed = Ghost(self.handed@.push(found@));
    }
}

/// A search that peels its endings off the answers instead of appending them to the questions.
///
/// The forward search costs `stems x beginnings x endings`, and the endings are the longest list
/// by a distance. Since the hash can be run backwards, an ending does not have to be appended to
/// anything: it can be taken off each wanted id once, leaving the hash that whatever comes before
/// it must produce. Then the scan only has to try `stems x beginnings`, and look each result up
/// in the peeled set. The cost stops being a product and becomes a sum.
///
/// The peeled set is built in batches because it is `wanted x endings x 2` entries and that does
/// not fit in memory whole. Two, because a loader id has had bit 63 cleared and the name's real
/// hash may have had it set.
pub struct Meet<'a> {
    openings: Vec<(String, u64)>,
    endings: &'a [String],
    bare: bool,
    /// Whether backslashes are folded to forward slashes, as every asset type but one wants.
    ///
    /// Carried on the search rather than chosen at each call site, because the peel and the feed
    /// must agree: peeling with one normalisation and hashing with the other produces a search
    /// that matches nothing at all and looks entirely healthy doing it.
    fold: bool,
}

impl<'a> Meet<'a> {
    pub closed spec fn opening_texts(&self) -> Seq<Seq<char>> {
        self.openings@.map_values(|pair: (String, u64)| pair.0@)
    }

    pub closed spec fn ending_list(&self) -> Seq<String> {
        self.endings@
    }

    pub open spec fn ending_texts(&self) -> Seq<Seq<char>> {
        texts(self.ending_list())
    }

    pub closed spec fn bare_spec(&self) -> bool {
        self.bare
    }

    pub closed spec fn fold_spec(&self) -> bool {
        self.fold
    }

    /// Every beginning carries its own hash, taken with the search's fold.
    pub closed spec fn wf(&self) -> bool {
        forall|i: int|
            0 <= i < self.openings@.len() ==> #[trigger] self.openings@[i].1 == hash_of(
                self.openings@[i].0@,
                self.fold,
            )
    }

    pub fn new(openings: &[String], endings: &'a [String]) -> (search: Self)
        ensures
            search.wf(),
            search.opening_texts() == texts(openings@),
            search.ending_list() == endings@,
            search.bare_spec(),
            search.fold_spec(),
    {
        Self::with_fold(openings, endings, true)
    }

    /// A search over names whose backslashes are not folded to forward slashes.
    ///
    /// Black Ops 4's SAB sound names are the only ones like this, and their ids are the hash of
    /// the unfolded string.
    pub fn unfolded(openings: &[String], endings: &'a [String]) -> (search: Self)
        ensures
            search.wf(),
            search.opening_texts() == texts(openings@),
            search.ending_list() == endings@,
            search.bare_spec(),
            !search.fold_spec(),
    {
        Self::with_fold(openings, endings, false)
    }

    fn with_fold(openings: &[String], endings: &'a [String], fold: bool) -> (search: Self)
        ensures
            search.wf(),
            search.opening_texts() == texts(openings@),
            search.ending_list() == endings@,
            search.bare_spec(),
            search.fold_spec() == fold,
    {
        let search = Meet { openings: opening_pairs(openings, fold), endings, bare: true, fold };
        assert(search.opening_texts() =~= texts(openings@));
        search
    }

    /// Drops the bare stem, with no beginning and no ending, from the candidates.
    pub fn dressed_only(self) -> (search: Self)
        ensures
            self.wf() ==> search.wf(),
            search.opening_texts() == self.opening_texts(),
            search.ending_list() == self.ending_list(),
            !search.bare_spec(),
            search.fold_spec() == self.fold_spec(),
    {
        Meet { openings: self.openings, endings: self.endings, bare: false, fold: self.fold }
    }

    /// How many candidates this is equivalent to trying. The work done is far less; the question
    /// asked is the same.
    pub fn candidates(&self, stems: usize) -> (out: u64)
        requires
            self.opening_texts().len() < u64::MAX,
            self.ending_texts().len() < u64::MAX,
            stems as int * (self.opening_texts().len() + if self.bare_spec() { 1int } else { 0int })
                * (self.ending_texts().len() + 1) <= u64::MAX,
        ensures
            out == stems as int * (self.opening_texts().len() + if self.bare_spec() {
                1int
            } else {
                0int
            }) * (self.ending_texts().len() + 1),
            out == candidate_count(
                self.opening_texts().len() as int,
                self.ending_texts().len() as int,
                stems as int,
                self.bare_spec(),
            ),
    {
        let openings = self.openings.len() as u64 + if self.bare { 1u64 } else { 0u64 };
        proof {
            let w = self.openings@.len() + if self.bare { 1int } else { 0int };
            assert(stems as int * w <= stems as int * w * (self.endings@.len() + 1)) by (nonlinear_arith)
                requires
                    stems as int * w >= 0,
            ;
        }
        stems as u64 * openings * (self.endings.len() as u64 + 1)
    }

    /// The fold this search was built with, applied. Every hash in the engine goes through here.
    fn feed(&self, hash: u64, text: &[u8]) -> (out: u64)
        ensures
            out == fold_bytes(hash, text@, self.fold_spec()),
    {
        if self.fold {
            feed(hash, text)
        } else {
            feed_raw(hash, text)
        }
    }

    /// Tries one stem wearing one beginning (`o`, or none when `o` is `-1`) with the no-ending
    /// candidate when `first` asks for it, and with each ending of `start..end`. `state` is the
    /// hash of the beginning and stem together.
    fn dress(
        &self,
        o: Ghost<int>,
        s: usize,
        state: u64,
        prefix: String,
        stems: &[String],
        start: usize,
        end: usize,
        first: bool,
        wanted: &HashMap<u64, usize>,
        named: &mut Vec<(u64, String)>,
    ) -> (added: Ghost<Seq<(int, int, int)>>)
        requires
            s < stems@.len(),
            start <= end <= self.ending_texts().len(),
            o@ == -1 ==> self.bare_spec() && prefix@ == Seq::<char>::empty(),
            o@ != -1 ==> 0 <= o@ < self.opening_texts().len() && prefix@ == self.opening_texts()[o@],
            state == hash_of(prefix@ + stems@[s as int]@, self.fold_spec()),
            forall|i: int|
                0 <= i < old(named)@.len() ==> is_batch_find(
                    self.opening_texts(),
                    self.ending_texts(),
                    texts(stems@),
                    self.bare_spec(),
                    self.fold_spec(),
                    wanted@, start as int, end as int, first,
                    #[trigger] old(named)@[i].0,
                    old(named)@[i].1@,
                ),
        ensures
            forall|i: int|
                0 <= i < final(named)@.len() ==> is_batch_find(
                    self.opening_texts(),
                    self.ending_texts(),
                    texts(stems@),
                    self.bare_spec(),
                    self.fold_spec(),
                    wanted@, start as int, end as int, first,
                    #[trigger] final(named)@[i].0,
                    final(named)@[i].1@,
                ),
            forall|id: u64, name: Seq<char>|
                #[trigger] listed(old(named)@, id, name) ==> listed(final(named)@, id, name),
            forall|e: int|
                ((e == -1 && first) || start <= e < end) && wanted@.contains_key(
                    landed(
                        dressed(self.opening_texts(), self.ending_texts(), texts(stems@), o@, s as int, e),
                        self.fold_spec(),
                    ),
                ) ==> #[trigger] listed(
                    final(named)@,
                    landed(
                        dressed(self.opening_texts(), self.ending_texts(), texts(stems@), o@, s as int, e),
                        self.fold_spec(),
                    ),
                    dressed(self.opening_texts(), self.ending_texts(), texts(stems@), o@, s as int, e),
                ),
            final(named)@.len() == old(named)@.len() + added@.len(),
            final(named)@.subrange(0, old(named)@.len() as int) == old(named)@,
            forall|j: int|
                0 <= j < added@.len() ==> reports_candidate(
                    final(named)@[old(named)@.len() + j],
                    #[trigger] added@[j],
                    self.opening_texts(),
                    self.ending_texts(),
                    texts(stems@),
                    self.bare_spec(),
                    self.fold_spec(),
                    wanted@,
                ) && added@[j].0 == o@ && added@[j].1 == s && in_batch(
                    added@[j].2,
                    start as int,
                    end as int,
                    first,
                ),
            added@.no_duplicates(),
            forall|e: int|
                in_batch(e, start as int, end as int, first) && wanted@.contains_key(
                    landed(
                        dressed(self.opening_texts(), self.ending_texts(), texts(stems@), o@, s as int, e),
                        self.fold_spec(),
                    ),
                ) ==> #[trigger] added@.contains((o@, s as int, e)),
    {
        let ghost ops = self.opening_texts();
        let ghost ends = self.ending_texts();
        let ghost sts = texts(stems@);
        let ghost bare = self.bare_spec();
        let ghost fold = self.fold_spec();
        let ghost first_named = named@;
        let ghost mut added: Seq<(int, int, int)> = Seq::empty();
        let mut base = prefix;
        base.append(stems[s].as_str());
        proof {
            assert(dressed(ops, ends, sts, o@, s as int, -1) =~= base@);
        }
        if first {
            proof {
                lemma_dressed_hash(ops, ends, sts, o@, s as int, -1, fold);
                lemma_hash_concat(BASIS, base@, Seq::<char>::empty(), fold);
                assert(base@ + Seq::<char>::empty() =~= base@);
                if wanted@.contains_key(state & ID_MASK) {
                    lemma_batch_candidate_found(ops, ends, sts, bare, fold, wanted@, start as int, end as int, first, o@, s as int, -1);
                }
            }
            keep(state, base.clone(), wanted, named);
            proof {
                assert(landed(dressed(ops, ends, sts, o@, s as int, -1), fold) == state & ID_MASK);
                if wanted@.contains_key(state & ID_MASK) {
                    added = added.push((o@, s as int, -1));
                    assert(named@[first_named.len() as int] == named@.last());
                    assert(added[0] == (o@, s as int, -1int));
                }
                assert(named@.subrange(0, first_named.len() as int) =~= first_named);
            }
        }
        let mut e: usize = start;
        while e < end
            invariant
                s < stems@.len(),
                start <= e <= end <= ends.len(),
                ends == self.ending_texts(),
                ends.len() == self.ending_list().len(),
                ends.len() == self.endings@.len(),
                forall|k: int| 0 <= k < ends.len() ==> #[trigger] ends[k] == self.endings@[k]@,
                sts == texts(stems@),
                fold == self.fold_spec(),
                o@ == -1 ==> bare,
                o@ != -1 ==> 0 <= o@ < ops.len(),
                base@ == dressed(ops, ends, sts, o@, s as int, -1),
                state == hash_of(base@, fold),
                forall|i: int|
                    0 <= i < named@.len() ==> is_batch_find(
                        ops,
                        ends,
                        sts,
                        bare,
                        fold,
                        wanted@, start as int, end as int, first,
                        #[trigger] named@[i].0,
                        named@[i].1@,
                    ),
                forall|id: u64, name: Seq<char>|
                    #[trigger] listed(first_named, id, name) ==> listed(named@, id, name),
                forall|k: int|
                    ((k == -1 && first) || start <= k < e) && wanted@.contains_key(
                        landed(dressed(ops, ends, sts, o@, s as int, k), fold),
                    ) ==> #[trigger] listed(
                        named@,
                        landed(dressed(ops, ends, sts, o@, s as int, k), fold),
                        dressed(ops, ends, sts, o@, s as int, k),
                    ),
                named@.len() == first_named.len() + added.len(),
                named@.subrange(0, first_named.len() as int) == first_named,
                forall|j: int|
                    0 <= j < added.len() ==> reports_candidate(
                        named@[first_named.len() + j],
                        #[trigger] added[j],
                        ops,
                        ends,
                        sts,
                        bare,
                        fold,
                        wanted@,
                    ) && added[j].0 == o@ && added[j].1 == s && in_batch(
                        added[j].2,
                        start as int,
                        end as int,
                        first,
                    ) && added[j].2 < e,
                added.no_duplicates(),
                forall|k: int|
                    ((k == -1 && first) || start <= k < e) && wanted@.contains_key(
                        landed(dressed(ops, ends, sts, o@, s as int, k), fold),
                    ) ==> #[trigger] added.contains((o@, s as int, k)),
            decreases end - e,
        {
            let ending = self.endings[e].as_str();
            let hash = self.feed(state, ending.as_bytes());
            let name = base.clone().concat(ending);
            let ghost before = named@;
            proof {
                assert(ends[e as int] == self.endings@[e as int]@);
                assert(dressed(ops, ends, sts, o@, s as int, e as int) =~= name@);
                lemma_hash_concat(BASIS, base@, ends[e as int], fold);
                if wanted@.contains_key(hash & ID_MASK) {
                    lemma_batch_candidate_found(ops, ends, sts, bare, fold, wanted@, start as int, end as int, first, o@, s as int, e as int);
                }
            }
            let ghost before_added = added;
            keep(hash, name, wanted, named);
            proof {
                if wanted@.contains_key(hash & ID_MASK) {
                    added = added.push((o@, s as int, e as int));
                    assert(named@[first_named.len() + before_added.len() as int] == named@.last());
                    assert forall|j: int| 0 <= j < before_added.len() implies #[trigger] named@[first_named.len() + j] == before[first_named.len() + j] by {
                    }
                }
                assert(named@.subrange(0, first_named.len() as int) =~= first_named);
                assert forall|k: int|
                    ((k == -1 && first) || start <= k < e + 1) && wanted@.contains_key(
                        landed(dressed(ops, ends, sts, o@, s as int, k), fold),
                    ) implies #[trigger] added.contains((o@, s as int, k)) by {
                    if k != e {
                        assert(before_added.contains((o@, s as int, k)));
                        let q: int = choose|q: int| 0 <= q < before_added.len() && before_added[q] == (o@, s as int, k);
                        assert(added[q] == before_added[q]);
                    } else {
                        assert(added[added.len() - 1] == (o@, s as int, k));
                    }
                }
                assert forall|k: int|
                    ((k == -1 && first) || start <= k < e + 1) && wanted@.contains_key(
                        landed(dressed(ops, ends, sts, o@, s as int, k), fold),
                    ) implies #[trigger] listed(
                        named@,
                        landed(dressed(ops, ends, sts, o@, s as int, k), fold),
                        dressed(ops, ends, sts, o@, s as int, k),
                    ) by {
                    if k != e {
                        assert(listed(
                            before,
                            landed(dressed(ops, ends, sts, o@, s as int, k), fold),
                            dressed(ops, ends, sts, o@, s as int, k),
                        ));
                    }
                }
            }
            e = e + 1;
        }
        Ghost(added)
    }

    /// Turns what the sweep reached into names, by trying the batch's endings forward.
    ///
    /// The sweep only proves that something in this batch completes the stem; which ending it is
    /// costs a few dozen hashes to find out, and it happens rarely enough not to matter. Every
    /// name is rebuilt and rehashed here, so nothing the sweep reports can produce a wrong one.
    fn name_them(
        &self,
        reached: &Vec<u64>,
        stems: &[String],
        start: usize,
        end: usize,
        wanted: &HashMap<u64, usize>,
        first: bool,
    ) -> (out: (Vec<(u64, String)>, Ghost<Seq<(int, int, int)>>))
        requires
            self.wf(),
            reached@.no_duplicates(),
            start <= end <= self.ending_texts().len(),
            self.opening_texts().len() < BARE_OPENING,
            forall|i: int|
                0 <= i < reached@.len() ==> #[trigger] mark_ok(
                    reached@[i],
                    self.opening_texts().len() as int,
                    self.bare_spec(),
                ),
        ensures
            forall|i: int|
                0 <= i < out.0@.len() ==> is_batch_find(
                    self.opening_texts(),
                    self.ending_texts(),
                    texts(stems@),
                    self.bare_spec(),
                    self.fold_spec(),
                    wanted@, start as int, end as int, first,
                    #[trigger] out.0@[i].0,
                    out.0@[i].1@,
                ),
            forall|i: int, e: int|
                0 <= i < reached@.len() && mark_stem(reached@[i]) < stems@.len() && ((e == -1
                    && first) || start <= e < end) && wanted@.contains_key(
                    landed(
                        dressed(
                            self.opening_texts(),
                            self.ending_texts(),
                            texts(stems@),
                            mark_opening(reached@[i]),
                            mark_stem(reached@[i]),
                            e,
                        ),
                        self.fold_spec(),
                    ),
                ) ==> listed(
                    out.0@,
                    landed(
                        #[trigger] dressed(
                            self.opening_texts(),
                            self.ending_texts(),
                            texts(stems@),
                            mark_opening(reached@[i]),
                            mark_stem(reached@[i]),
                            e,
                        ),
                        self.fold_spec(),
                    ),
                    dressed(
                        self.opening_texts(),
                        self.ending_texts(),
                        texts(stems@),
                        mark_opening(reached@[i]),
                        mark_stem(reached@[i]),
                        e,
                    ),
                ),
            out.1@.len() == out.0@.len(),
            forall|j: int|
                0 <= j < out.0@.len() ==> reports_candidate(
                    #[trigger] out.0@[j],
                    out.1@[j],
                    self.opening_texts(),
                    self.ending_texts(),
                    texts(stems@),
                    self.bare_spec(),
                    self.fold_spec(),
                    wanted@,
                ) && in_batch(out.1@[j].2, start as int, end as int, first),
            out.1@.no_duplicates(),
            forall|h: int, e: int|
                0 <= h < reached@.len() && mark_stem(reached@[h]) < stems@.len() && in_batch(
                    e,
                    start as int,
                    end as int,
                    first,
                ) && wanted@.contains_key(
                    landed(
                        dressed(
                            self.opening_texts(),
                            self.ending_texts(),
                            texts(stems@),
                            mark_opening(reached@[h]),
                            mark_stem(reached@[h]),
                            e,
                        ),
                        self.fold_spec(),
                    ),
                ) ==> #[trigger] out.1@.contains(
                    (mark_opening(reached@[h]), mark_stem(reached@[h]), e),
                ),
    {
        let ghost ops = self.opening_texts();
        let ghost ends = self.ending_texts();
        let ghost sts = texts(stems@);
        let ghost bare = self.bare_spec();
        let ghost fold = self.fold_spec();
        let mut named: Vec<(u64, String)> = Vec::new();
        let ghost mut picks: Seq<(int, int, int)> = Seq::empty();
        let ghost mut source: Seq<int> = Seq::empty();
        let mut i: usize = 0;
        assert(named_from(
            named@,
            picks,
            source,
            reached@,
            0,
            ops,
            ends,
            sts,
            bare,
            fold,
            wanted@,
            start as int,
            end as int,
            first,
        )) by {
            reveal(named_from);
        }
        while i < reached.len()
            invariant
                self.wf(),
                i <= reached@.len(),
                start <= end <= ends.len(),
                ops == self.opening_texts(),
                ends == self.ending_texts(),
                sts == texts(stems@),
                bare == self.bare_spec(),
                fold == self.fold_spec(),
                ops.len() < BARE_OPENING,
                forall|h: int| 0 <= h < reached@.len() ==> #[trigger] mark_ok(reached@[h], ops.len() as int, bare),
                reached@.no_duplicates(),
                named_from(
                    named@,
                    picks,
                    source,
                    reached@,
                    i as int,
                    ops,
                    ends,
                    sts,
                    bare,
                    fold,
                    wanted@,
                    start as int,
                    end as int,
                    first,
                ),
                forall|h: int|
                    0 <= h < named@.len() ==> is_batch_find(
                        ops,
                        ends,
                        sts,
                        bare,
                        fold,
                        wanted@, start as int, end as int, first,
                        #[trigger] named@[h].0,
                        named@[h].1@,
                    ),
                forall|h: int, e: int|
                    0 <= h < i && mark_stem(reached@[h]) < stems@.len() && ((e == -1 && first)
                        || start <= e < end) && wanted@.contains_key(
                        landed(
                            dressed(ops, ends, sts, mark_opening(reached@[h]), mark_stem(reached@[h]), e),
                            fold,
                        ),
                    ) ==> listed(
                        named@,
                        landed(
                            #[trigger] dressed(
                                ops,
                                ends,
                                sts,
                                mark_opening(reached@[h]),
                                mark_stem(reached@[h]),
                                e,
                            ),
                            fold,
                        ),
                        dressed(ops, ends, sts, mark_opening(reached@[h]), mark_stem(reached@[h]), e),
                    ),
            decreases reached@.len() - i,
        {
            let m = reached[i];
            let offset = (m >> 32u64) as usize;
            let opening = m & 0xFFFF_FFFFu64;
            let ghost before = named@;
            proof {
                assert(m >> 32u64 <= 0xFFFF_FFFFu64) by (bit_vector);
                assert(opening <= 0xFFFF_FFFFu64) by (bit_vector)
                    requires
                        opening == m & 0xFFFF_FFFFu64,
                ;
                assert(mark_ok(reached@[i as int], ops.len() as int, bare));
            }
            if offset < stems.len() {
                let ghost o = mark_opening(m);
                let prefix: String;
                let base: u64;
                if opening == BARE_OPENING {
                    prefix = String::new();
                    base = BASIS;
                } else {
                    prefix = self.openings[opening as usize].0.clone();
                    base = self.openings[opening as usize].1;
                }
                let state = self.feed(base, stems[offset].as_str().as_bytes());
                proof {
                    lemma_hash_concat(BASIS, prefix@, stems@[offset as int]@, fold);
                    if opening == BARE_OPENING {
                        lemma_empty_feeds_nothing(BASIS, fold);
                    } else {
                        assert(self.openings@[opening as int].1 == hash_of(
                            self.openings@[opening as int].0@,
                            fold,
                        ));
                        assert(ops[opening as int] == self.openings@[opening as int].0@);
                    }
                }
                let added = self.dress(
                    Ghost(o),
                    offset,
                    state,
                    prefix,
                    stems,
                    start,
                    end,
                    first,
                    wanted,
                    &mut named,
                );
                proof {
                    assert(offset as int == mark_stem(m));
                    lemma_named_step(
                        before,
                        named@,
                        picks,
                        source,
                        added@,
                        reached@,
                        i as int,
                        ops,
                        ends,
                        sts,
                        bare,
                        fold,
                        wanted@,
                        start as int,
                        end as int,
                        first,
                    );
                    picks = picks + added@;
                    source = source + Seq::new(added@.len(), |q: int| i as int);
                }
            } else {
                proof {
                    assert(named@ == before);
                    assert(before.subrange(0, before.len() as int) =~= before);
                    lemma_named_step(
                        before,
                        named@,
                        picks,
                        source,
                        Seq::empty(),
                        reached@,
                        i as int,
                        ops,
                        ends,
                        sts,
                        bare,
                        fold,
                        wanted@,
                        start as int,
                        end as int,
                        first,
                    );
                    assert(picks + Seq::<(int, int, int)>::empty() =~= picks);
                    assert(source + Seq::new(0, |q: int| i as int) =~= source);
                }
            }
            proof {
                assert forall|h: int, e: int|
                    0 <= h < i + 1 && mark_stem(reached@[h]) < stems@.len() && ((e == -1 && first)
                        || start <= e < end) && wanted@.contains_key(
                        landed(
                            dressed(ops, ends, sts, mark_opening(reached@[h]), mark_stem(reached@[h]), e),
                            fold,
                        ),
                    ) implies listed(
                    named@,
                    landed(
                        #[trigger] dressed(
                            ops,
                            ends,
                            sts,
                            mark_opening(reached@[h]),
                            mark_stem(reached@[h]),
                            e,
                        ),
                        fold,
                    ),
                    dressed(ops, ends, sts, mark_opening(reached@[h]), mark_stem(reached@[h]), e),
                ) by {
                    if h < i {
                        assert(listed(
                            before,
                            landed(
                                dressed(
                                    ops,
                                    ends,
                                    sts,
                                    mark_opening(reached@[h]),
                                    mark_stem(reached@[h]),
                                    e,
                                ),
                                fold,
                            ),
                            dressed(
                                ops,
                                ends,
                                sts,
                                mark_opening(reached@[h]),
                                mark_stem(reached@[h]),
                                e,
                            ),
                        ));
                    }
                }
            }
            i = i + 1;
        }
        proof {
            reveal(named_from);
        }
        (named, Ghost(picks))
    }

    /// Sweeps stems `from..to` against every beginning, and returns the marks of what reached the
    /// peeled set, numbered by their place in the whole stem list.
    fn sweep_chunk<B: Backend>(
        &self,
        backend: &B,
        states: &Vec<u64>,
        port: PeeledSet,
        stems: &[String],
        from: usize,
        to: usize,
    ) -> (marks: Vec<u64>)
        requires
            states@.len() == self.opening_texts().len(),
            forall|k: int|
                0 <= k < states@.len() ==> #[trigger] states@[k] == hash_of(
                    self.opening_texts()[k],
                    self.fold_spec(),
                ),
            self.opening_texts().len() < BARE_OPENING,
            port.wf(),
            from <= to <= stems@.len(),
            to - from <= STEM_CHUNK,
            stems@.len() <= u32::MAX,
            packed_len(stems@.subrange(from as int, to as int), to - from) + PACKED_BYTES
                <= u32::MAX,
        ensures
            forall|i: int|
                0 <= i < marks@.len() ==> #[trigger] mark_ok(
                    marks@[i],
                    self.opening_texts().len() as int,
                    self.bare_spec(),
                ),
            forall|o: int, s: int|
                ((o == -1 && self.bare_spec()) || 0 <= o < self.opening_texts().len()) && from <= s
                    < to && port.admits(
                    #[trigger] stem_state(self.opening_texts(), texts(stems@), o, s, self.fold_spec()),
                ) ==> marks@.contains(mark(s, hit_opening(o))),
            marks@.no_duplicates(),
            forall|i: int| 0 <= i < marks@.len() ==> from <= #[trigger] mark_stem(marks@[i]) < to,
    {
        let ghost ops = self.opening_texts();
        let ghost sts = texts(stems@);
        let ghost bare = self.bare_spec();
        let ghost fold = self.fold_spec();
        let packed = StemBatch::pack_range(stems, from, to, self.fold);
        let request = SweepRequest {
            stems: &packed,
            openings: states.as_slice(),
            bare: self.bare,
            peeled: port,
        };
        let ghost count = packed.count();
        let hits = match backend.sweep(&request) {
            Ok(hits) => {
                proof {
                    broadcast use vstd::seq_lib::group_to_multiset_ensures;

                    assert forall|x: u64| #[trigger] hits@.contains(x) <==> sweep_from(
                        &request,
                        0,
                        count,
                    ).contains(x) by {
                        assert(hits@.to_multiset().count(x) == sweep_from(
                            &request,
                            0,
                            count,
                        ).to_multiset().count(x));
                    }
                }
                proof {
                    lemma_sweep_distinct(&request, 0, count);
                    sweep_from(&request, 0, count).lemma_multiset_has_no_duplicates();
                    hits@.lemma_multiset_has_no_duplicates_conv();
                }
                hits
            },
            Err(_) => {
                let hits = sweep_stems(&request, 0, packed.len());
                proof {
                    lemma_sweep_distinct(&request, 0, count);
                }
                hits
            },
        };
        assert(hits@.no_duplicates());
        assert(forall|x: u64| #[trigger] hits@.contains(x) <==> sweep_from(&request, 0, count).contains(x));
        // A hit carries the stem's index within its chunk. The chunk's own offset is added here
        // so that what comes out is an index into `stems`.
        let base = from as u64;
        let mut marks: Vec<u64> = Vec::new();
        let mut h: usize = 0;
        while h < hits.len()
            invariant
                h <= hits@.len(),
                marks@.len() == h,
                request.wf(),
                base == from,
                count == to - from,
                count == request.stems.count(),
                to <= stems@.len() <= u32::MAX,
                ops.len() < BARE_OPENING,
                request.openings@.len() == ops.len(),
                request.bare == bare,
                forall|x: u64| #[trigger] hits@.contains(x) <==> sweep_from(&request, 0, count).contains(x),
                forall|q: int|
                    0 <= q < h ==> #[trigger] marks@[q] == hits@[q] + (base << 32u64) && mark_ok(
                        marks@[q],
                        ops.len() as int,
                        bare,
                    ) && from <= mark_stem(marks@[q]) < to,
            decreases hits@.len() - h,
        {
            let hit = hits[h];
            proof {
                assert(hits@.contains(hit));
                lemma_sweep_contains(&request, 0, count, hit);
                let (i, k) = choose|i: int, k: int|
                    0 <= i < count && reported(&request, i, k) && hit == #[trigger] mark(i, k);
                lemma_mark_shift(i as u64, k as u64, base);
                lemma_mark_parts((i + base) as u64, k as u64);
            }
            marks.push(hit + (base << 32u64));
            h = h + 1;
        }
        proof {
            assert forall|o: int, s: int|
                ((o == -1 && bare) || 0 <= o < ops.len()) && from <= s < to && port.admits(
                    #[trigger] stem_state(ops, sts, o, s, fold),
                ) implies marks@.contains(mark(s, hit_opening(o))) by {
                let i = s - from;
                let k = hit_opening(o);
                lemma_stem_state(ops, sts, o, s, fold);
                assert(packed.stem(i) == normalised(encode_utf8(stems@[from + i]@), fold));
                assert(sts[s] == stems@[s]@);
                if o == -1 {
                    lemma_plain_fold_normalised(BASIS, encode_utf8(stems@[s]@), fold);
                } else {
                    lemma_plain_fold_normalised(states@[o], encode_utf8(stems@[s]@), fold);
                }
                assert(reported(&request, i, k));
                lemma_sweep_contains(&request, 0, count, mark(i, k));
                assert(hits@.contains(mark(i, k)));
                let q: int = choose|q: int| 0 <= q < hits@.len() && hits@[q] == mark(i, k);
                lemma_mark_shift(i as u64, k as u64, base);
                assert(marks@[q] == mark(s, k));
            }
        }
        marks
    }

    /// One round: peels endings `start..end` off the wanted ids, sweeps every stem against every
    /// beginning, and names what reached the peeled set. `first` asks about the no-ending
    /// candidate too, which needs asking once.
    #[verifier::spinoff_prover]
    fn round<B: Backend>(
        &self,
        backend: &B,
        states: &Vec<u64>,
        stems: &[String],
        wanted: &HashMap<u64, usize>,
        start: usize,
        end: usize,
        first: bool,
    ) -> (out: (Vec<(u64, String)>, Ghost<Seq<(int, int, int)>>))
        requires
            self.wf(),
            states@.len() == self.opening_texts().len(),
            forall|k: int|
                0 <= k < states@.len() ==> #[trigger] states@[k] == hash_of(
                    self.opening_texts()[k],
                    self.fold_spec(),
                ),
            self.opening_texts().len() < BARE_OPENING,
            stems@.len() <= u32::MAX,
            pieces_fit(stems@, STEM_CHUNK as int),
            start <= end <= self.ending_texts().len(),
            packed_len(self.ending_list().subrange(start as int, end as int), end - start)
                + PACKED_BYTES <= u32::MAX,
            2 * wanted@.len() * ((end - start) + if first { 1int } else { 0int }) <= usize::MAX,
        ensures
            reports_batch(
                out.0@,
                self.opening_texts(),
                self.ending_texts(),
                texts(stems@),
                self.bare_spec(),
                self.fold_spec(),
                wanted@,
                start as int,
                end as int,
                first,
            ),
            out.1@.len() == out.0@.len(),
            forall|j: int|
                0 <= j < out.0@.len() ==> reports_candidate(
                    #[trigger] out.0@[j],
                    out.1@[j],
                    self.opening_texts(),
                    self.ending_texts(),
                    texts(stems@),
                    self.bare_spec(),
                    self.fold_spec(),
                    wanted@,
                ) && in_batch(out.1@[j].2, start as int, end as int, first),
            out.1@.no_duplicates(),
            forall|o: int, s: int, e: int|
                #[trigger] in_space(
                    self.opening_texts(),
                    self.ending_texts(),
                    texts(stems@),
                    self.bare_spec(),
                    o,
                    s,
                    e,
                ) && in_batch(e, start as int, end as int, first) && wanted@.contains_key(
                    landed(
                        dressed(self.opening_texts(), self.ending_texts(), texts(stems@), o, s, e),
                        self.fold_spec(),
                    ),
                ) ==> out.1@.contains((o, s, e)),
    {
        let ghost ops = self.opening_texts();
        let ghost ends = self.ending_texts();
        let ghost sts = texts(stems@);
        let ghost bare = self.bare_spec();
        let ghost fold = self.fold_spec();
        let peeled = Peeled::build(backend, wanted, self.endings, start, end, first, self.fold);
        let port = peeled.as_port();
        let mut reached: Vec<u64> = Vec::new();
        let mut from: usize = 0;
        while from < stems.len()
            invariant
                from <= stems@.len(),
                ops == self.opening_texts(),
                sts == texts(stems@),
                bare == self.bare_spec(),
                fold == self.fold_spec(),
                states@.len() == ops.len(),
                forall|k: int| 0 <= k < states@.len() ==> #[trigger] states@[k] == hash_of(ops[k], fold),
                ops.len() < BARE_OPENING,
                stems@.len() <= u32::MAX,
                pieces_fit(stems@, STEM_CHUNK as int),
                port.wf(),
                forall|h: int| 0 <= h < reached@.len() ==> #[trigger] mark_ok(reached@[h], ops.len() as int, bare),
                reached@.no_duplicates(),
                forall|h: int| 0 <= h < reached@.len() ==> #[trigger] mark_stem(reached@[h]) < from,
                forall|o: int, s: int|
                    ((o == -1 && bare) || 0 <= o < ops.len()) && 0 <= s < from && port.admits(
                        #[trigger] stem_state(ops, sts, o, s, fold),
                    ) ==> reached@.contains(mark(s, hit_opening(o))),
            decreases stems@.len() - from,
        {
            let to = if stems.len() - from > STEM_CHUNK {
                from + STEM_CHUNK
            } else {
                stems.len()
            };
            let mut marks = self.sweep_chunk(backend, states, port, stems, from, to);
            let ghost before = reached@;
            let ghost fresh = marks@;
            reached.append(&mut marks);
            proof {
                broadcast use vstd::seq_lib::lemma_seq_concat_contains_all_elements;

                assert forall|p: int, q: int| 0 <= p < before.len() && 0 <= q < fresh.len() implies before[p]
                    != fresh[q] by {
                    assert(mark_stem(before[p]) < from);
                    assert(from <= mark_stem(fresh[q]));
                }
                vstd::seq_lib::lemma_no_dup_in_concat(before, fresh);
                assert(reached@ == before + fresh);
                assert forall|h: int| 0 <= h < reached@.len() implies #[trigger] mark_stem(reached@[h]) < to by {
                    if h >= before.len() {
                        assert(reached@[h] == fresh[h - before.len()]);
                    } else {
                        assert(reached@[h] == before[h]);
                    }
                }

                assert forall|h: int| 0 <= h < reached@.len() implies #[trigger] mark_ok(
                    reached@[h],
                    ops.len() as int,
                    bare,
                ) by {
                    if h >= before.len() {
                        assert(reached@[h] == fresh[h - before.len()]);
                    } else {
                        assert(reached@[h] == before[h]);
                    }
                }
            }
            from = to;
        }
        let (named, picks) = self.name_them(&reached, stems, start, end, wanted, first);
        proof {
            assert forall|o: int, s: int, e: int|
                #[trigger] in_space(ops, ends, sts, bare, o, s, e) && ((e == -1 && first) || start
                    <= e < end) && wanted@.contains_key(landed(dressed(ops, ends, sts, o, s, e), fold))
                implies listed(
                named@,
                landed(dressed(ops, ends, sts, o, s, e), fold),
                dressed(ops, ends, sts, o, s, e),
            ) && picks@.contains((o, s, e)) by {
                let d = dressed(ops, ends, sts, o, s, e);
                let hash = hash_of(d, fold);
                lemma_spelled(wanted@, hash);
                let g = stem_state(ops, sts, o, s, fold);
                lemma_stem_state(ops, sts, o, s, fold);
                let p = (if o < 0 {
                    Seq::<char>::empty()
                } else {
                    ops[o]
                }) + sts[s];
                let q = if e < 0 {
                    Seq::<char>::empty()
                } else {
                    ends[e]
                };
                assert(d =~= p + q);
                lemma_hash_concat(BASIS, p, q, fold);
                if e == -1 {
                    lemma_empty_feeds_nothing(g, fold);
                    assert(peeled_from(wanted@, texts(self.endings@), start as int, end as int, first, fold, g));
                } else {
                    lemma_peel_fold(g, encode_utf8(ends[e]), fold);
                    assert(ends[e] == texts(self.endings@)[e]);
                    assert(g == peel_bytes(hash, encode_utf8(texts(self.endings@)[e]), fold));
                    assert(peeled_from(wanted@, texts(self.endings@), start as int, end as int, first, fold, g));
                }
                assert(peeled.hashes@.contains(g));
                assert(port.admits(g));
                let k = hit_opening(o);
                assert(reached@.contains(mark(s, k)));
                let idx = choose|idx: int| 0 <= idx < reached@.len() && reached@[idx] == mark(s, k);
                lemma_mark_parts(s as u64, k as u64);
                assert(mark_stem(reached@[idx]) == s);
                assert(mark_opening(reached@[idx]) == o);
                assert(dressed(
                    ops,
                    ends,
                    sts,
                    mark_opening(reached@[idx]),
                    mark_stem(reached@[idx]),
                    e,
                ) == d);
            }
        }
        let ghost named_view = named@;
        let ghost picks_view = picks@;
        let out = (named, picks);
        assert forall|j: int| 0 <= j < out.0@.len() implies reports_candidate(
            #[trigger] out.0@[j],
            out.1@[j],
            ops,
            ends,
            sts,
            bare,
            fold,
            wanted@,
        ) && in_batch(out.1@[j].2, start as int, end as int, first) by {
            assert(out.0@[j] == named_view[j]);
            assert(out.1@[j] == picks_view[j]);
            assert(reports_candidate(named_view[j], picks_view[j], ops, ends, sts, bare, fold, wanted@));
        }
        out
    }

    /// Runs the search on `backend` and returns every name that matched: each candidate whose id
    /// is wanted, reported under its id.
    ///
    /// A backend that turns a piece of work down is answered by the processor instead, so the
    /// result never depends on which one did the work.
    pub fn run_on<B: Backend>(
        &self,
        backend: &B,
        stems: &[String],
        wanted: &HashMap<u64, usize>,
    ) -> (found: Vec<(u64, String)>)
        requires
            self.wf(),
            self.opening_texts().len() < u32::MAX,
            stems@.len() <= u32::MAX,
            4 * wanted@.len() + PEELED_BATCH <= usize::MAX,
            pieces_fit(stems@, STEM_CHUNK as int),
            pieces_fit(self.ending_list(), ending_batch(wanted@.len())),
        ensures
            reports_each_once(
                found@,
                self.opening_texts(),
                self.ending_texts(),
                texts(stems@),
                self.bare_spec(),
                self.fold_spec(),
                wanted@,
            ),
            reports_exactly(
                found@,
                self.opening_texts(),
                self.ending_texts(),
                texts(stems@),
                self.bare_spec(),
                self.fold_spec(),
                wanted@,
            ),
    {
        let mut keep_nothing = Discard { handed: Ghost(Seq::empty()) };
        self.run_checkpointed(backend, stems, wanted, &mut keep_nothing)
    }

    /// Runs the search on `backend` as [`Meet::run_on`] does, and hands each batch's finds to
    /// `checkpoint` as soon as that batch is done, so that a run that is cut off keeps what it
    /// had already found. A batch that found nothing hands nothing over.
    pub fn run_checkpointed<B: Backend, C: Checkpoint>(
        &self,
        backend: &B,
        stems: &[String],
        wanted: &HashMap<u64, usize>,
        checkpoint: &mut C,
    ) -> (found: Vec<(u64, String)>)
        requires
            self.wf(),
            self.opening_texts().len() < u32::MAX,
            stems@.len() <= u32::MAX,
            4 * wanted@.len() + PEELED_BATCH <= usize::MAX,
            pieces_fit(stems@, STEM_CHUNK as int),
            pieces_fit(self.ending_list(), ending_batch(wanted@.len())),
        ensures
            old(checkpoint).kept().len() <= final(checkpoint).kept().len(),
            final(checkpoint).kept().subrange(0, old(checkpoint).kept().len() as int) == old(
                checkpoint,
            ).kept(),
            joined(final(checkpoint).kept().skip(old(checkpoint).kept().len() as int)) == found@,
            forall|i: int|
                old(checkpoint).kept().len() <= i < final(checkpoint).kept().len()
                    ==> #[trigger] final(checkpoint).kept()[i].len() > 0,
            exists|rounds: Seq<Seq<(u64, String)>>|
                {
                    &&& rounds.len() == batch_count(
                        self.ending_texts().len() as int,
                        ending_batch(wanted@.len()),
                    )
                    &&& forall|b: int|
                        0 <= b < rounds.len() ==> reports_batch(
                            #[trigger] rounds[b],
                            self.opening_texts(),
                            self.ending_texts(),
                            texts(stems@),
                            self.bare_spec(),
                            self.fold_spec(),
                            wanted@,
                            b * ending_batch(wanted@.len()),
                            batch_end(
                                b,
                                ending_batch(wanted@.len()),
                                self.ending_texts().len() as int,
                            ),
                            b == 0,
                        )
                    &&& #[trigger] with_finds(rounds) == final(checkpoint).kept().skip(
                        old(checkpoint).kept().len() as int,
                    )
                },
            reports_each_once(
                found@,
                self.opening_texts(),
                self.ending_texts(),
                texts(stems@),
                self.bare_spec(),
                self.fold_spec(),
                wanted@,
            ),
            reports_exactly(
                found@,
                self.opening_texts(),
                self.ending_texts(),
                texts(stems@),
                self.bare_spec(),
                self.fold_spec(),
                wanted@,
            ),
    {
        let ghost ops = self.opening_texts();
        let ghost ends = self.ending_texts();
        let ghost sts = texts(stems@);
        let ghost bare = self.bare_spec();
        let ghost fold = self.fold_spec();
        let batch = ending_batch_for(wanted.len());
        // The beginnings, as the hash states they leave behind. Computed once for the pass, since
        // every stem in every batch is folded onto all of them.
        let mut states: Vec<u64> = Vec::new();
        let mut k: usize = 0;
        while k < self.openings.len()
            invariant
                self.wf(),
                k <= self.openings@.len(),
                ops == self.opening_texts(),
                fold == self.fold_spec(),
                states@.len() == k,
                forall|q: int| 0 <= q < k ==> #[trigger] states@[q] == hash_of(ops[q], fold),
            decreases self.openings@.len() - k,
        {
            states.push(self.openings[k].1);
            proof {
                assert(self.openings@[k as int].1 == hash_of(self.openings@[k as int].0@, fold));
            }
            k = k + 1;
        }
        let mut found: Vec<(u64, String)> = Vec::new();
        let ghost before_run = checkpoint.kept();
        let ghost mut handed: Seq<Seq<(u64, String)>> = Seq::empty();
        let ghost mut rounds: Seq<Seq<(u64, String)>> = Seq::empty();
        let ghost mut all_picks: Seq<(int, int, int)> = Seq::empty();
        let mut start: usize = 0;
        assert(found_before(found@, all_picks, ops, ends, sts, bare, fold, wanted@, 0, true)) by {
            reveal(found_before);
        }
        let mut first = true;
        // An empty ending list still has one thing to ask -- the stem and beginning on their
        // own -- so the first round always runs.
        while first || start < self.endings.len()
            invariant
                checkpoint.kept() == before_run + handed,
                before_run == old(checkpoint).kept(),
                joined(handed) == found@,
                forall|i: int| 0 <= i < handed.len() ==> #[trigger] handed[i].len() > 0,
                handed == with_finds(rounds),
                found_before(found@, all_picks, ops, ends, sts, bare, fold, wanted@, start as int, first),
                first <==> rounds.len() == 0,
                start == if rounds.len() * batch < ends.len() {
                    rounds.len() * batch
                } else {
                    ends.len() as int
                },
                rounds.len() > 0 && ends.len() > 0 ==> (rounds.len() - 1) * batch < ends.len(),
                ends.len() == 0 ==> rounds.len() <= 1,
                forall|b: int|
                    0 <= b < rounds.len() ==> reports_batch(
                        #[trigger] rounds[b],
                        ops,
                        ends,
                        sts,
                        bare,
                        fold,
                        wanted@,
                        b * batch,
                        batch_end(b, batch as int, ends.len() as int),
                        b == 0,
                    ),
                self.wf(),
                start <= ends.len(),
                ends.len() == self.ending_list().len(),
                first ==> start == 0,
                ops == self.opening_texts(),
                ends == self.ending_texts(),
                sts == texts(stems@),
                bare == self.bare_spec(),
                fold == self.fold_spec(),
                batch == ending_batch(wanted@.len()),
                batch >= 1,
                states@.len() == ops.len(),
                forall|q: int| 0 <= q < states@.len() ==> #[trigger] states@[q] == hash_of(ops[q], fold),
                ops.len() < BARE_OPENING,
                stems@.len() <= u32::MAX,
                4 * wanted@.len() + PEELED_BATCH <= usize::MAX,
                pieces_fit(stems@, STEM_CHUNK as int),
                pieces_fit(self.ending_list(), ending_batch(wanted@.len())),
                forall|i: int|
                    0 <= i < found@.len() ==> is_find(
                        ops,
                        ends,
                        sts,
                        bare,
                        fold,
                        wanted@,
                        #[trigger] found@[i].0,
                        found@[i].1@,
                    ),
                forall|o: int, s: int, e: int|
                    #[trigger] in_space(ops, ends, sts, bare, o, s, e) && !first && e < start
                        && wanted@.contains_key(landed(dressed(ops, ends, sts, o, s, e), fold))
                        ==> listed(
                        found@,
                        landed(dressed(ops, ends, sts, o, s, e), fold),
                        dressed(ops, ends, sts, o, s, e),
                    ),
            decreases ends.len() - start + if first { 1int } else { 0int },
        {
            let end = if self.endings.len() - start > batch {
                start + batch
            } else {
                self.endings.len()
            };
            proof {
                lemma_batch_fits(wanted@.len(), (end - start) as int, first);
                assert(packed_len(self.ending_list().subrange(start as int, end as int), end - start)
                    + PACKED_BYTES <= u32::MAX);
            }
            let (mut named, batch_picks) = self.round(backend, &states, stems, wanted, start, end, first);
            proof {
                let r: int = rounds.len() as int;
                assert((r + 1) * batch == r * batch + batch) by (nonlinear_arith);
                assert(start == r * batch);
                assert(end == batch_end(r, batch as int, ends.len() as int));
                assert(rounds.push(named@).drop_last() =~= rounds);
                rounds = rounds.push(named@);
            }
            if named.len() > 0 {
                checkpoint.keep(named.as_slice());
                proof {
                    assert(handed.push(named@).drop_last() =~= handed);
                    handed = handed.push(named@);
                }
            }
            let ghost before = found@;
            let ghost fresh = named@;
            let ghost found_before_round = found@;
            proof {
                lemma_found_step(
                    found@,
                    all_picks,
                    named@,
                    batch_picks@,
                    ops,
                    ends,
                    sts,
                    bare,
                    fold,
                    wanted@,
                    start as int,
                    end as int,
                    first,
                );
                all_picks = all_picks + batch_picks@;
            }
            found.append(&mut named);
            assert(joined(handed) =~= found@) by {
                if fresh.len() > 0 {
                    assert(joined(handed) == found_before_round + fresh);
                } else {
                    assert(found@ =~= found_before_round);
                }
            }
            proof {
                assert forall|i: int| 0 <= i < found@.len() implies is_find(
                    ops,
                    ends,
                    sts,
                    bare,
                    fold,
                    wanted@,
                    #[trigger] found@[i].0,
                    found@[i].1@,
                ) by {
                    if i >= before.len() {
                        assert(found@[i] == fresh[i - before.len()]);
                    } else {
                        assert(found@[i] == before[i]);
                    }
                }
                assert forall|o: int, s: int, e: int|
                    #[trigger] in_space(ops, ends, sts, bare, o, s, e) && e < end
                        && wanted@.contains_key(landed(dressed(ops, ends, sts, o, s, e), fold))
                        implies listed(
                    found@,
                    landed(dressed(ops, ends, sts, o, s, e), fold),
                    dressed(ops, ends, sts, o, s, e),
                ) by {
                    let id = landed(dressed(ops, ends, sts, o, s, e), fold);
                    let name = dressed(ops, ends, sts, o, s, e);
                    if !first && e < start {
                        assert(listed(before, id, name));
                        let i = choose|i: int|
                            0 <= i < before.len() && #[trigger] before[i].0 == id && before[i].1@ == name;
                        assert(found@[i] == before[i]);
                    } else {
                        assert(listed(fresh, id, name));
                        let i = choose|i: int|
                            0 <= i < fresh.len() && #[trigger] fresh[i].0 == id && fresh[i].1@ == name;
                        assert(found@[before.len() + i] == fresh[i]);
                    }
                }
            }
            start = end;
            first = false;
        }
        proof {
            assert forall|o: int, s: int, e: int|
                #[trigger] in_space(ops, ends, sts, bare, o, s, e) && wanted@.contains_key(
                    landed(dressed(ops, ends, sts, o, s, e), fold),
                ) implies listed(
                found@,
                landed(dressed(ops, ends, sts, o, s, e), fold),
                dressed(ops, ends, sts, o, s, e),
            ) by {
                assert(e < start);
            }
        }
        assert(checkpoint.kept().subrange(0, before_run.len() as int) =~= before_run);
        assert(checkpoint.kept().skip(before_run.len() as int) =~= handed);
        proof {
            if ends.len() > 0 {
                assert(rounds.len() * batch >= ends.len());
                lemma_batch_count(ends.len() as int, batch as int, rounds.len() as int);
            }
            assert(rounds.len() == batch_count(ends.len() as int, batch as int));
            reveal(found_before);
            assert(each_once(found@, all_picks, ops, ends, sts, bare, fold, wanted@));
            assert(with_finds(rounds) == checkpoint.kept().skip(before_run.len() as int));
            assert(forall|b: int|
                0 <= b < rounds.len() ==> reports_batch(
                    #[trigger] rounds[b],
                    ops,
                    ends,
                    sts,
                    bare,
                    fold,
                    wanted@,
                    b * batch,
                    batch_end(b, batch as int, ends.len() as int),
                    b == 0,
                ));
        }
        assert forall|i: int|
            before_run.len() <= i < checkpoint.kept().len() implies #[trigger] checkpoint.kept()[i].len()
            > 0 by {
            assert(checkpoint.kept()[i] == handed[i - before_run.len()]);
        }
        found
    }

    /// Runs the search on the processor and returns every name that matched.
    pub fn run(&self, stems: &[String], wanted: &HashMap<u64, usize>) -> (found: Vec<(u64, String)>)
        requires
            self.wf(),
            self.opening_texts().len() < u32::MAX,
            stems@.len() <= u32::MAX,
            4 * wanted@.len() + PEELED_BATCH <= usize::MAX,
            pieces_fit(stems@, STEM_CHUNK as int),
            pieces_fit(self.ending_list(), ending_batch(wanted@.len())),
        ensures
            reports_each_once(
                found@,
                self.opening_texts(),
                self.ending_texts(),
                texts(stems@),
                self.bare_spec(),
                self.fold_spec(),
                wanted@,
            ),
            reports_exactly(
                found@,
                self.opening_texts(),
                self.ending_texts(),
                texts(stems@),
                self.bare_spec(),
                self.fold_spec(),
                wanted@,
            ),
    {
        let cpu = Cpu::with_threads(1);
        self.run_on(&cpu, stems, wanted)
    }
}

/// Roughly what one peeled entry costs relative to one forward hash, counting the sort that
/// makes the batch searchable. Sorting dominates a peeled batch, and getting this wrong picks
/// the slower search.
pub const PEEL_COST: u64 = 80;

/// How many beginnings a stem is tried with, counting the bare stem, and never fewer than one.
pub open spec fn sweep_width(openings: int, bare: bool) -> int {
    let width = openings + if bare { 1int } else { 0int };
    if width < 1 {
        1
    } else {
        width
    }
}

/// What peeling costs, in forward hashes: every stem against every beginning once per peeled
/// batch, and every ending peeled off both spellings of every wanted id.
pub open spec fn peeling_cost(openings: int, endings: int, stems: int, wanted: int, bare: bool) -> int {
    let peeled = wanted * 2;
    let entries = endings * peeled;
    let batches = if entries <= 0 {
        1
    } else {
        (entries + PEELED_BATCH - 1) / (PEELED_BATCH as int)
    };
    batches * (stems * sweep_width(openings, bare)) + entries * PEEL_COST
}

/// What hashing forwards costs: one hash per candidate, saturating as [`candidate_space`] does.
pub open spec fn forward_cost(openings: int, endings: int, stems: int, bare: bool) -> int {
    let product = stems * (openings + if bare { 1int } else { 0int }) * (endings + 1);
    if product > u64::MAX {
        u64::MAX as int
    } else {
        product
    }
}

/// The two costs [`run_best`] weighs: peeling first, hashing forwards second.
pub fn costs(openings: usize, endings: usize, stems: usize, wanted: usize, bare: bool) -> (out: (
    u64,
    u64,
))
    requires
        openings < u64::MAX,
        endings < u64::MAX,
        peeling_cost(openings as int, endings as int, stems as int, wanted as int, bare)
            <= u64::MAX,
        wanted * 2 <= u64::MAX,
        endings * (wanted * 2) <= u64::MAX,
        stems * sweep_width(openings as int, bare) <= u64::MAX,
    ensures
        out.0 == peeling_cost(openings as int, endings as int, stems as int, wanted as int, bare),
        out.1 == forward_cost(openings as int, endings as int, stems as int, bare),
{
    let width = openings as u64 + if bare { 1u64 } else { 0u64 };
    let width = if width < 1 { 1 } else { width };
    let breadth = stems as u64 * width;
    let peeled = wanted as u64 * 2;
    let entries = endings as u64 * peeled;
    let batches = if entries == 0 {
        1
    } else {
        entries / (PEELED_BATCH as u64) + if entries % (PEELED_BATCH as u64) == 0 {
            0
        } else {
            1
        }
    };
    proof {
        let whole = batches as int;
        if entries > 0 {
            assert(whole == (entries + PEELED_BATCH - 1) / (PEELED_BATCH as int)) by (nonlinear_arith)
                requires
                    entries > 0,
                    whole == (entries as int) / 60_000_000int + if (entries as int) % 60_000_000int == 0 {
                        0int
                    } else {
                        1int
                    },
            ;
        }
        assert(0 <= batches * breadth <= peeling_cost(
            openings as int,
            endings as int,
            stems as int,
            wanted as int,
            bare,
        )) by (nonlinear_arith)
            requires
                batches >= 0,
                breadth >= 0,
                entries >= 0,
                peeling_cost(openings as int, endings as int, stems as int, wanted as int, bare)
                    == batches * breadth + entries * 80,
        ;
    }
    let meet = batches * breadth + entries * PEEL_COST;
    let plain = candidate_space(openings, endings, stems, bare);
    (meet, plain)
}

/// Runs a search whichever way round is cheaper.
///
/// Peeling the endings off the wanted ids turns a product into a sum, but it is not free: each
/// batch has to be sorted before it can be searched. Where there are few stems and a great many
/// endings, that sort costs more than the multiplication it saves, and hashing forwards is
/// faster. The two give the same answer, so this is only ever a question of time.
pub fn run_best(
    openings: &[String],
    endings: &[String],
    stems: &[String],
    wanted: &HashMap<u64, usize>,
    bare: bool,
) -> (found: Vec<(u64, String)>)
    requires
        openings@.len() < u32::MAX,
        endings@.len() < u64::MAX,
        peeling_cost(
            openings@.len() as int,
            endings@.len() as int,
            stems@.len() as int,
            wanted@.len() as int,
            bare,
        ) <= u64::MAX,
        wanted@.len() * 2 <= u64::MAX,
        endings@.len() * (wanted@.len() * 2) <= u64::MAX,
        stems@.len() * sweep_width(openings@.len() as int, bare) <= u64::MAX,
        peeling_cost(
            openings@.len() as int,
            endings@.len() as int,
            stems@.len() as int,
            wanted@.len() as int,
            bare,
        ) < forward_cost(openings@.len() as int, endings@.len() as int, stems@.len() as int, bare)
            ==> {
            &&& stems@.len() <= u32::MAX
            &&& 4 * wanted@.len() + PEELED_BATCH <= usize::MAX
            &&& pieces_fit(stems@, STEM_CHUNK as int)
            &&& pieces_fit(endings@, ending_batch(wanted@.len()))
        },
    ensures
        reports_exactly(found@, texts(openings@), texts(endings@), texts(stems@), bare, true, wanted@),
        reports_each_once(found@, texts(openings@), texts(endings@), texts(stems@), bare, true, wanted@),
        !(peeling_cost(
            openings@.len() as int,
            endings@.len() as int,
            stems@.len() as int,
            wanted@.len() as int,
            bare,
        ) < forward_cost(openings@.len() as int, endings@.len() as int, stems@.len() as int, bare))
            ==> row_texts(found@) == search_finds(
            texts(openings@),
            texts(endings@),
            texts(stems@),
            bare,
            true,
            wanted@,
        ),
{
    let (meet, plain) = costs(openings.len(), endings.len(), stems.len(), wanted.len(), bare);
    if meet < plain {
        let search = Meet::new(openings, endings);
        let search = if bare {
            search
        } else {
            search.dressed_only()
        };
        search.run(stems, wanted)
    } else {
        let search = Search::new(openings, endings);
        let search = if bare {
            search
        } else {
            search.dressed_only()
        };
        search.run(stems, wanted)
    }
}

/// Whether [`run_best`] takes these inputs: every count it works out fits in 64 bits, and when
/// peeling is the cheaper, the batches a peeling search makes fit the 32-bit offsets they are
/// addressed by.
pub open spec fn run_best_fits(
    openings: Seq<String>,
    endings: Seq<String>,
    stems: Seq<String>,
    wanted: nat,
    bare: bool,
) -> bool {
    &&& openings.len() < u32::MAX
    &&& endings.len() < u64::MAX
    &&& peeling_cost(openings.len() as int, endings.len() as int, stems.len() as int, wanted as int, bare)
        <= u64::MAX
    &&& wanted * 2 <= u64::MAX
    &&& endings.len() * (wanted * 2) <= u64::MAX
    &&& stems.len() * sweep_width(openings.len() as int, bare) <= u64::MAX
    &&& peeling_cost(openings.len() as int, endings.len() as int, stems.len() as int, wanted as int, bare)
        < forward_cost(openings.len() as int, endings.len() as int, stems.len() as int, bare) ==> {
        &&& stems.len() <= u32::MAX
        &&& 4 * wanted + PEELED_BATCH <= usize::MAX
        &&& pieces_fit(stems, STEM_CHUNK as int)
        &&& pieces_fit(endings, ending_batch(wanted))
    }
}

/// Runs [`run_best`] when it takes these inputs, and says so when it does not.
pub fn run_best_checked(
    openings: &[String],
    endings: &[String],
    stems: &[String],
    wanted: &HashMap<u64, usize>,
    bare: bool,
) -> (out: Option<Vec<(u64, String)>>)
    ensures
        out is Some <==> run_best_fits(openings@, endings@, stems@, wanted@.len(), bare),
        out matches Some(found) ==> reports_exactly(
            found@,
            texts(openings@),
            texts(endings@),
            texts(stems@),
            bare,
            true,
            wanted@,
        ) && reports_each_once(found@, texts(openings@), texts(endings@), texts(stems@), bare, true, wanted@),
{
    let o = openings.len();
    let e = endings.len();
    let n = stems.len();
    let w = wanted.len();
    if o as u64 >= 0xFFFF_FFFF || e as u64 == u64::MAX {
        return None;
    }
    let width: u64 = if o as u64 + if bare { 1u64 } else { 0u64 } < 1 {
        1
    } else {
        o as u64 + if bare { 1u64 } else { 0u64 }
    };
    assert(width == sweep_width(o as int, bare));
    let peeled = match (w as u64).checked_mul(2) {
        Some(p) => p,
        None => return None,
    };
    let entries = match (e as u64).checked_mul(peeled) {
        Some(x) => x,
        None => return None,
    };
    let breadth = match (n as u64).checked_mul(width) {
        Some(b) => b,
        None => return None,
    };
    let whole = entries / (PEELED_BATCH as u64);
    assert(whole < u64::MAX) by (nonlinear_arith)
        requires
            whole == entries / 60_000_000u64,
    ;
    let batches: u64 = if entries == 0 {
        1
    } else {
        whole + if entries % (PEELED_BATCH as u64) == 0 {
            0
        } else {
            1
        }
    };
    proof {
        let ent = entries as int;
        if ent > 0 {
            assert((ent + PEELED_BATCH - 1) / (PEELED_BATCH as int) == ent / (PEELED_BATCH as int)
                + if ent % (PEELED_BATCH as int) == 0 {
                1int - 1
            } else {
                1int
            }) by (nonlinear_arith)
                requires
                    ent > 0,
            ;
        }
        assert(batches >= 1);
    }
    let spread = match batches.checked_mul(breadth) {
        Some(x) => x,
        None => {
            assert(batches * breadth <= peeling_cost(o as int, e as int, n as int, w as int, bare))
                by (nonlinear_arith)
                requires
                    entries * PEEL_COST >= 0,
                    peeling_cost(o as int, e as int, n as int, w as int, bare) == batches * breadth
                        + entries * PEEL_COST,
            ;
            return None;
        },
    };
    let sorting = match entries.checked_mul(PEEL_COST) {
        Some(x) => x,
        None => return None,
    };
    match spread.checked_add(sorting) {
        Some(_) => {},
        None => return None,
    }
    let (meet, plain) = costs(o, e, n, w, bare);
    if meet < plain {
        if n as u64 > 0xFFFF_FFFF {
            return None;
        }
        let room = match w.checked_mul(4) {
            Some(x) => x.checked_add(PEELED_BATCH),
            None => None,
        };
        if room.is_none() {
            return None;
        }
        if !fits_in_pieces(stems, STEM_CHUNK) {
            return None;
        }
        if !fits_in_pieces(endings, ending_batch_for(w)) {
            return None;
        }
    }
    Some(run_best(openings, endings, stems, wanted, bare))
}

/// Hashing forwards and peeling ask the same question and give the same answer: over the same
/// beginnings, endings, stems and wanted ids, with the bare stem asked about in both or in
/// neither, what `Search::run` reports and what a folding `Meet::run` reports are the same
/// (id, name) pairs.
pub proof fn law_searches_agree(
    plain: Seq<(u64, String)>,
    fast: Seq<(u64, String)>,
    openings: Seq<Seq<char>>,
    endings: Seq<Seq<char>>,
    stems: Seq<Seq<char>>,
    bare: bool,
    wanted: Map<u64, usize>,
)
    requires
        reports_exactly(plain, openings, endings, stems, bare, true, wanted),
        reports_exactly(fast, openings, endings, stems, bare, true, wanted),
    ensures
        found_set(plain) == found_set(fast),
{
    lemma_reports_exactly_is_finds(plain, openings, endings, stems, bare, true, wanted);
    lemma_reports_exactly_is_finds(fast, openings, endings, stems, bare, true, wanted);
}

/// Two result lists that each report every wanted candidate exactly once are as long as each
/// other: the plain search and the peeling search find the same number of names, repeats and
/// all.
pub proof fn law_searches_agree_in_count(
    plain: Seq<(u64, String)>,
    fast: Seq<(u64, String)>,
    openings: Seq<Seq<char>>,
    endings: Seq<Seq<char>>,
    stems: Seq<Seq<char>>,
    bare: bool,
    fold: bool,
    wanted: Map<u64, usize>,
)
    requires
        reports_each_once(plain, openings, endings, stems, bare, fold, wanted),
        reports_each_once(fast, openings, endings, stems, bare, fold, wanted),
    ensures
        plain.len() == fast.len(),
{
    let a = choose|picks: Seq<(int, int, int)>|
        #[trigger] each_once(plain, picks, openings, endings, stems, bare, fold, wanted);
    let b = choose|picks: Seq<(int, int, int)>|
        #[trigger] each_once(fast, picks, openings, endings, stems, bare, fold, wanted);
    assert forall|c: (int, int, int)| a.to_set().contains(c) <==> b.to_set().contains(c) by {
        if a.contains(c) {
            let i = choose|i: int| 0 <= i < a.len() && a[i] == c;
            assert(reports_candidate(plain[i], a[i], openings, endings, stems, bare, fold, wanted));
            assert(in_space(openings, endings, stems, bare, c.0, c.1, c.2));
        }
        if b.contains(c) {
            let i = choose|i: int| 0 <= i < b.len() && b[i] == c;
            assert(reports_candidate(fast[i], b[i], openings, endings, stems, bare, fold, wanted));
            assert(in_space(openings, endings, stems, bare, c.0, c.1, c.2));
        }
    }
    assert(a.to_set() =~= b.to_set());
    a.unique_seq_to_set();
    b.unique_seq_to_set();
}

/// Two sequences holding the same things as many times each still do after every item goes
/// through the same function.
proof fn lemma_map_keeps_multiset<A, B>(s1: Seq<A>, s2: Seq<A>, f: spec_fn(A) -> B)
    requires
        s1.to_multiset() == s2.to_multiset(),
    ensures
        s1.map_values(f).to_multiset() == s2.map_values(f).to_multiset(),
    decreases s1.len(),
{
    broadcast use vstd::multiset::group_multiset_axioms;
    broadcast use vstd::seq_lib::group_to_multiset_ensures;

    vstd::seq_lib::to_multiset_len(s1);
    vstd::seq_lib::to_multiset_len(s2);
    if s1.len() == 0 {
        assert(s1.map_values(f) =~= Seq::<B>::empty());
        assert(s2.map_values(f) =~= Seq::<B>::empty());
    } else {
        let x = s1.last();
        let rest1 = s1.drop_last();
        assert(s1 =~= rest1.push(x));
        vstd::seq_lib::to_multiset_build(rest1, x);
        assert(s2.to_multiset().count(x) > 0);
        assert(s2.contains(x));
        let i: int = choose|i: int| 0 <= i < s2.len() && s2[i] == x;
        let rest2 = s2.remove(i);
        assert(s2 =~= rest2.insert(i, x));
        vstd::seq_lib::to_multiset_insert(rest2, i, x);
        assert(rest1.to_multiset() =~= rest2.to_multiset());
        lemma_map_keeps_multiset(rest1, rest2, f);
        assert(s1.map_values(f) =~= rest1.map_values(f).push(f(x)));
        assert(s2.map_values(f) =~= rest2.map_values(f).insert(i, f(x)));
        vstd::seq_lib::to_multiset_build(rest1.map_values(f), f(x));
        vstd::seq_lib::to_multiset_insert(rest2.map_values(f), i, f(x));
    }
}

/// What a candidate reports: its name under its id.
pub open spec fn row_of(
    openings: Seq<Seq<char>>,
    endings: Seq<Seq<char>>,
    stems: Seq<Seq<char>>,
    fold: bool,
    pick: (int, int, int),
) -> (u64, Seq<char>) {
    let name = dressed(openings, endings, stems, pick.0, pick.1, pick.2);
    (landed(name, fold), name)
}

/// Two result lists that each report every wanted candidate exactly once hold the same rows, each
/// as many times: the plain search and the peeling search differ at most in order.
pub proof fn law_searches_agree_row_for_row(
    plain: Seq<(u64, String)>,
    fast: Seq<(u64, String)>,
    openings: Seq<Seq<char>>,
    endings: Seq<Seq<char>>,
    stems: Seq<Seq<char>>,
    bare: bool,
    fold: bool,
    wanted: Map<u64, usize>,
)
    requires
        reports_each_once(plain, openings, endings, stems, bare, fold, wanted),
        reports_each_once(fast, openings, endings, stems, bare, fold, wanted),
    ensures
        row_texts(plain).to_multiset() == row_texts(fast).to_multiset(),
{
    broadcast use vstd::multiset::group_multiset_axioms;
    broadcast use vstd::seq_lib::group_to_multiset_ensures;

    let a = choose|picks: Seq<(int, int, int)>|
        #[trigger] each_once(plain, picks, openings, endings, stems, bare, fold, wanted);
    let b = choose|picks: Seq<(int, int, int)>|
        #[trigger] each_once(fast, picks, openings, endings, stems, bare, fold, wanted);
    a.lemma_multiset_has_no_duplicates();
    b.lemma_multiset_has_no_duplicates();
    assert forall|c: (int, int, int)| a.to_multiset().count(c) == b.to_multiset().count(c) by {
        if a.contains(c) {
            let i: int = choose|i: int| 0 <= i < a.len() && a[i] == c;
            assert(reports_candidate(plain[i], a[i], openings, endings, stems, bare, fold, wanted));
            assert(in_space(openings, endings, stems, bare, c.0, c.1, c.2));
            assert(b.contains(c));
        }
        if b.contains(c) {
            let i: int = choose|i: int| 0 <= i < b.len() && b[i] == c;
            assert(reports_candidate(fast[i], b[i], openings, endings, stems, bare, fold, wanted));
            assert(in_space(openings, endings, stems, bare, c.0, c.1, c.2));
            assert(a.contains(c));
        }
    }
    assert(a.to_multiset() =~= b.to_multiset());
    let f = |pick: (int, int, int)| row_of(openings, endings, stems, fold, pick);
    lemma_map_keeps_multiset(a, b, f);
    assert forall|i: int| 0 <= i < plain.len() implies #[trigger] row_texts(plain)[i] == a.map_values(f)[i] by {
        assert(reports_candidate(plain[i], a[i], openings, endings, stems, bare, fold, wanted));
    }
    assert(row_texts(plain) =~= a.map_values(f));
    assert forall|i: int| 0 <= i < fast.len() implies #[trigger] row_texts(fast)[i] == b.map_values(f)[i] by {
        assert(reports_candidate(fast[i], b[i], openings, endings, stems, bare, fold, wanted));
    }
    assert(row_texts(fast) =~= b.map_values(f));
}

} // verus!
