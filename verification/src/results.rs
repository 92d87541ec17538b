//! Results held per asset type, each a set of ids with the name that reached them.
//!
//! Loaded, added to, and written back. A run can only ever add: what a previous run wrote is
//! already held, so a rule change that no longer reaches an old name does not take it away.
//! Getting this wrong once silently replaced a whole result set, which is why it is one type with
//! one way in.

use std::collections::{HashMap, HashSet};

use vstd::prelude::*;

use crate::listing::{
    file_lists, law_rows_read_back, lines, lists_in_order, row_line, row_texts, row_writable,
    rows_of_lines, rows_text,
};
use crate::names::{lowercase, lowercase_of};
use crate::order::{sort_by_key_text, sort_texts, text_before, text_le};
use crate::pools::{odd_for_pool, oddity};
use crate::text::{chars_of, hex, push_char};
use crate::hash::{hash_of, law_normalised_names_hash_alike, normal_char};
use crate::BASIS;

verus! {

broadcast use {vstd::std_specs::hash::group_hash_axioms, vstd::seq_lib::group_to_multiset_ensures};

/// A name as it is written down: backslashes turned to forward slashes, unless the spelling is
/// being kept exactly as the search hashed it.
pub open spec fn spelled(name: Seq<char>, keep: bool) -> Seq<char> {
    if keep {
        name
    } else {
        name.map_values(|c: char| if c == '\\' { '/' } else { c })
    }
}

/// Writing a name with forward slashes for its backslashes leaves no backslash, leaves every
/// other character where it was, and does not move its id: with slashes folded, the hash of
/// the name as written is the hash of the name as found. Keeping the spelling keeps the name.
pub proof fn law_respelling_keeps_the_id(name: Seq<char>)
    ensures
        spelled(name, true) == name,
        spelled(name, false).len() == name.len(),
        forall|i: int|
            0 <= i < name.len() ==> #[trigger] spelled(name, false)[i] != '\\' && (name[i] != '\\'
                ==> spelled(name, false)[i] == name[i]),
        hash_of(spelled(name, false), true) == hash_of(name, true),
{
    let written = spelled(name, false);
    assert forall|i: int| 0 <= i < name.len() implies normal_char(#[trigger] written[i], true)
        == normal_char(name[i], true) by {
        if name[i] == '\\' {
            assert(written[i] == '/');
        }
    }
    law_normalised_names_hash_alike(BASIS, written, name, true);
}

/// The rows of one asset type: each id once, with its name, and a map from id to where its row
/// is.
struct Table {
    rows: Vec<(u64, String)>,
    at: HashMap<u64, usize>,
}

impl Table {
    /// The map and the rows agree, and no id has two rows.
    spec fn wf(&self) -> bool {
        &&& forall|id: u64|
            #[trigger] self.at@.contains_key(id) ==> (self.at@[id] as int) < self.rows@.len()
                && self.rows@[self.at@[id] as int].0 == id
        &&& forall|i: int|
            0 <= i < self.rows@.len() ==> self.at@.contains_key(#[trigger] self.rows@[i].0)
                && self.at@[self.rows@[i].0] == i
    }

    /// What the table holds: each id's name.
    spec fn view(&self) -> Map<u64, Seq<char>> {
        Map::new(
            |id: u64| self.at@.contains_key(id),
            |id: u64| self.rows@[self.at@[id] as int].1@,
        )
    }

    fn new() -> (table: Self)
        ensures
            table.wf(),
            table.view() == Map::<u64, Seq<char>>::empty(),
            table.rows@.len() == 0,
    {
        let table = Table { rows: Vec::new(), at: HashMap::new() };
        assert(table.view() =~= Map::<u64, Seq<char>>::empty());
        table
    }

    /// Where an id's row is, if it has one.
    fn find(&self, id: u64) -> (out: Option<usize>)
        requires
            self.wf(),
        ensures
            out is Some <==> self.view().contains_key(id),
            out matches Some(place) ==> (place as int) < self.rows@.len() && self.rows@[place as int].0
                == id,
    {
        match self.at.get(&id) {
            Some(place) => Some(*place),
            None => None,
        }
    }

    /// Adds a row for an id that has none.
    fn insert_new(&mut self, id: u64, name: String)
        requires
            old(self).wf(),
            !old(self).view().contains_key(id),
            old(self).rows@.len() < usize::MAX,
        ensures
            final(self).wf(),
            final(self).view() == old(self).view().insert(id, name@),
            final(self).rows@.len() == old(self).rows@.len() + 1,
    {
        let place = self.rows.len();
        let ghost before = *self;
        self.rows.push((id, name));
        self.at.insert(id, place);
        proof {
            assert forall|i: int| 0 <= i < self.rows@.len() implies self.at@.contains_key(
                #[trigger] self.rows@[i].0,
            ) && self.at@[self.rows@[i].0] == i by {
                if i < place {
                    assert(self.rows@[i] == before.rows@[i]);
                    assert(before.at@.contains_key(before.rows@[i].0));
                }
            }
            assert(self.view() =~= before.view().insert(id, name@));
        }
    }

    /// Replaces the name in an id's row.
    fn rename(&mut self, place: usize, name: String)
        requires
            old(self).wf(),
            (place as int) < old(self).rows@.len(),
        ensures
            final(self).wf(),
            final(self).view() == old(self).view().insert(old(self).rows@[place as int].0, name@),
            final(self).rows@.len() == old(self).rows@.len(),
    {
        let ghost before = *self;
        let id = self.rows[place].0;
        self.rows.set(place, (id, name));
        proof {
            assert forall|i: int| 0 <= i < self.rows@.len() implies self.at@.contains_key(
                #[trigger] self.rows@[i].0,
            ) && self.at@[self.rows@[i].0] == i by {
                if i != place {
                    assert(self.rows@[i] == before.rows@[i]);
                }
            }
            assert(self.view() =~= before.view().insert(id, name@));
        }
    }

    /// Every name, row by row.
    fn names(&self) -> (out: Vec<String>)
        requires
            self.wf(),
        ensures
            out@.len() == self.rows@.len(),
            forall|i: int| 0 <= i < out@.len() ==> #[trigger] out@[i]@ == self.rows@[i].1@,
    {
        let mut out: Vec<String> = Vec::new();
        let mut i: usize = 0;
        while i < self.rows.len()
            invariant
                i <= self.rows@.len(),
                out@.len() == i,
                forall|k: int| 0 <= k < i ==> #[trigger] out@[k]@ == self.rows@[k].1@,
            decreases self.rows@.len() - i,
        {
            out.push(self.rows[i].1.clone());
            i = i + 1;
        }
        out
    }
}

impl Table {
    /// No id has two rows, and the table holds as many ids as it has rows.
    proof fn lemma_size(&self)
        requires
            self.wf(),
        ensures
            self.view().dom().finite(),
            self.view().dom().len() == self.rows@.len(),
    {
        let ids = self.rows@.map_values(|row: (u64, String)| row.0);
        assert(ids.no_duplicates()) by {
            assert forall|i: int, j: int| 0 <= i < ids.len() && 0 <= j < ids.len() && i != j implies ids[i]
                != ids[j] by {
                assert(self.at@.contains_key(self.rows@[i].0));
                assert(self.at@.contains_key(self.rows@[j].0));
            }
        }
        assert(ids.to_set() =~= self.view().dom()) by {
            assert forall|id: u64| ids.to_set().contains(id) <==> self.view().dom().contains(id) by {
                if ids.to_set().contains(id) {
                    let i = choose|i: int| 0 <= i < ids.len() && ids[i] == id;
                    assert(self.at@.contains_key(self.rows@[i].0));
                }
                if self.view().dom().contains(id) {
                    let i = self.at@[id] as int;
                    assert(ids[i] == id);
                }
            }
        }
        ids.unique_seq_to_set();
        assert(self.view().dom().finite()) by {
            vstd::seq_lib::seq_to_set_is_finite(ids);
        }
    }

    /// The table as the text of its file: one `{id:x},{name}` line a row, in order of the
    /// lowered names.
    fn file_text(&self) -> (out: String)
        requires
            self.wf(),
        ensures
            file_lists(out@, self.view()),
    {
        let mut keyed: Vec<(String, u64, String)> = Vec::new();
        let mut i: usize = 0;
        while i < self.rows.len()
            invariant
                i <= self.rows@.len(),
                keyed@.len() == i,
                forall|k: int|
                    0 <= k < i ==> (#[trigger] keyed@[k]).0@ == lowercase(self.rows@[k].1@)
                        && keyed@[k].1 == self.rows@[k].0 && keyed@[k].2@ == self.rows@[k].1@,
            decreases self.rows@.len() - i,
        {
            let name = &self.rows[i].1;
            keyed.push((lowercase_of(name.as_str()), self.rows[i].0, name.clone()));
            i = i + 1;
        }
        let ghost unsorted = keyed@;
        proof {
            assert(unsorted.no_duplicates()) by {
                assert forall|p: int, q: int|
                    0 <= p < unsorted.len() && 0 <= q < unsorted.len() && p != q implies unsorted[p]
                    != unsorted[q] by {
                    assert(self.at@.contains_key(self.rows@[p].0));
                    assert(self.at@.contains_key(self.rows@[q].0));
                }
            }
            unsorted.lemma_multiset_has_no_duplicates();
        }
        sort_by_key_text(&mut keyed);
        let ghost sorted = keyed@;
        proof {
            assert(sorted.no_duplicates()) by {
                assert forall|x: (String, u64, String)| sorted.to_multiset().contains(x) implies sorted.to_multiset().count(x) == 1 by {
                    assert(unsorted.to_multiset().contains(x));
                }
                sorted.lemma_multiset_has_no_duplicates_conv();
            }
        }
        // Each sorted row is one of the table's rows.
        assert forall|i: int| #![trigger sorted[i]] 0 <= i < sorted.len() implies exists|p: int|
            0 <= p < unsorted.len() && #[trigger] unsorted[p] == sorted[i] by {
            assert(sorted.to_multiset().count(sorted[i]) > 0) by {
                assert(sorted.contains(sorted[i]));
            }
            assert(unsorted.contains(sorted[i]));
        }
        let mut out = String::new();
        let ghost mut rows: Seq<(u64, Seq<char>)> = Seq::empty();
        let mut j: usize = 0;
        while j < keyed.len()
            invariant
                j <= keyed@.len(),
                keyed@ == sorted,
                rows.len() == j,
                forall|k: int| 0 <= k < j ==> #[trigger] rows[k] == (sorted[k].1, sorted[k].2@),
                out@ == rows_text(rows),
            decreases keyed@.len() - j,
        {
            let ghost before = rows;
            out.append(hex(keyed[j].1).as_str());
            push_char(&mut out, ',');
            out.append(keyed[j].2.as_str());
            push_char(&mut out, '\n');
            proof {
                rows = rows.push((sorted[j as int].1, sorted[j as int].2@));
                assert(rows.drop_last() =~= before);
                assert(out@ =~= rows_text(before) + row_line(sorted[j as int].1, sorted[j as int].2@));
            }
            j = j + 1;
        }
        proof {
            assert(lists_in_order(rows, self.view())) by {
                assert forall|i: int| 0 <= i < rows.len() implies self.view().contains_key(
                    #[trigger] rows[i].0,
                ) && self.view()[rows[i].0] == rows[i].1 by {
                    let p = choose|p: int| 0 <= p < unsorted.len() && #[trigger] unsorted[p] == sorted[i];
                    lemma_rows_held(self, p);
                }
                assert forall|i: int, j: int| 0 <= i < j < rows.len() implies rows[i].0 != rows[j].0 by {
                    let p = choose|p: int| 0 <= p < unsorted.len() && #[trigger] unsorted[p] == sorted[i];
                    let q = choose|q: int| 0 <= q < unsorted.len() && #[trigger] unsorted[q] == sorted[j];
                    if rows[i].0 == rows[j].0 {
                        assert(self.at@.contains_key(self.rows@[p].0));
                        assert(self.at@.contains_key(self.rows@[q].0));
                        assert(p == q);
                        assert(sorted[i] == sorted[j]);
                    }
                }
                assert forall|id: u64| #[trigger] self.view().contains_key(id) implies exists|i: int|
                    0 <= i < rows.len() && rows[i].0 == id by {
                    let p = self.at@[id] as int;
                    assert(unsorted[p].1 == id);
                    assert(unsorted.contains(unsorted[p]));
                    assert(sorted.to_multiset().count(unsorted[p]) > 0);
                    assert(sorted.contains(unsorted[p]));
                    let i = choose|i: int| 0 <= i < sorted.len() && sorted[i] == unsorted[p];
                    assert(rows[i].0 == id);
                }
                assert forall|i: int, j: int| 0 <= i < j < rows.len() implies text_le(
                    lowercase(rows[i].1),
                    lowercase(rows[j].1),
                ) by {
                    let p = choose|p: int| 0 <= p < unsorted.len() && #[trigger] unsorted[p] == sorted[i];
                    let q = choose|q: int| 0 <= q < unsorted.len() && #[trigger] unsorted[q] == sorted[j];
                    assert(text_le(sorted[i].0@, sorted[j].0@));
                }
            }
        }
        out
    }
}

/// What a sort put at a place was somewhere in the list it sorted.
proof fn lemma_came_from<A>(unsorted: Seq<A>, sorted: Seq<A>, i: int) -> (p: int)
    requires
        unsorted.to_multiset() == sorted.to_multiset(),
        0 <= i < sorted.len(),
    ensures
        0 <= p < unsorted.len(),
        unsorted[p] == sorted[i],
{
    assert(sorted.to_multiset().count(sorted[i]) > 0) by {
        assert(sorted.contains(sorted[i]));
    }
    assert(unsorted.contains(sorted[i]));
    choose|p: int| 0 <= p < unsorted.len() && unsorted[p] == sorted[i]
}

/// Every name a table's rows hold is held under its id.
proof fn lemma_rows_held(table: &Table, i: int)
    requires
        table.wf(),
        0 <= i < table.rows@.len(),
    ensures
        table.view().contains_key(table.rows@[i].0),
        table.view()[table.rows@[i].0] == table.rows@[i].1@,
{
    assert(table.at@.contains_key(table.rows@[i].0));
}

/// Results held as one table per asset type.
pub struct Results {
    kinds: Vec<String>,
    tables: Vec<Table>,
    added: Vec<Table>,
    count: usize,
    fresh_count: usize,
    /// Whether to leave a name spelled exactly as the search hashed it.
    ///
    /// For every pool but one the two spellings of a path reach the same asset, so a name is
    /// written in the spelling the published tables use. Black Ops 4's SAB sound names are the
    /// exception: their ids are the hash of the string with its backslashes, so rewriting them
    /// leaves a row whose name no longer produces its own id. Phrased as "keep" so that the
    /// default means fold, which every pool but one wants.
    keep_spelling: bool,
}

/// How many rows the first `n` tables hold.
spec fn rows_in(tables: Seq<Table>, n: int) -> int
    decreases n,
{
    if n <= 0 {
        0
    } else {
        rows_in(tables, n - 1) + tables[n - 1].rows@.len()
    }
}

/// Changing one table's size changes the total by as much.
proof fn lemma_rows_in_update(tables: Seq<Table>, k: int, table: Table, n: int)
    requires
        0 <= k < tables.len(),
        0 <= n <= tables.len(),
    ensures
        rows_in(tables.update(k, table), n) == rows_in(tables, n) + if k < n {
            table.rows@.len() - tables[k].rows@.len()
        } else {
            0
        },
    decreases n,
{
    if n > 0 {
        lemma_rows_in_update(tables, k, table, n - 1);
    }
}

/// Adding a table adds its rows to the total.
proof fn lemma_rows_in_push(tables: Seq<Table>, table: Table, n: int)
    requires
        0 <= n <= tables.len(),
    ensures
        rows_in(tables.push(table), n) == rows_in(tables, n),
    decreases n,
{
    if n > 0 {
        lemma_rows_in_push(tables, table, n - 1);
        assert(tables.push(table)[n - 1] == tables[n - 1]);
    }
}

impl Results {
    /// The asset types held, in the order they first appeared.
    pub closed spec fn kind_list(&self) -> Seq<Seq<char>> {
        self.kinds@.map_values(|kind: String| kind@)
    }

    /// Where an asset type's table is.
    spec fn slot(&self, kind: Seq<char>) -> int {
        choose|k: int| 0 <= k < self.kinds@.len() && self.kinds@[k]@ == kind
    }

    /// Everything held: for each asset type, each id's name.
    pub closed spec fn held(&self) -> Map<Seq<char>, Map<u64, Seq<char>>> {
        Map::new(
            |kind: Seq<char>| self.kind_list().contains(kind),
            |kind: Seq<char>| self.tables@[self.slot(kind)].view(),
        )
    }

    /// What this run added: for each asset type, each id's name.
    pub closed spec fn fresh(&self) -> Map<Seq<char>, Map<u64, Seq<char>>> {
        Map::new(
            |kind: Seq<char>| self.kind_list().contains(kind),
            |kind: Seq<char>| self.added@[self.slot(kind)].view(),
        )
    }

    /// How many rows are held, across every asset type.
    pub closed spec fn size(&self) -> nat {
        self.count as nat
    }

    /// How many rows this run added, across every asset type.
    pub closed spec fn fresh_size(&self) -> nat {
        self.fresh_count as nat
    }

    /// Whether names are kept exactly as they were spelled.
    pub closed spec fn keeps(&self) -> bool {
        self.keep_spelling
    }

    /// The rows held under one asset type, empty when it has none.
    pub open spec fn held_under(&self, kind: Seq<char>) -> Map<u64, Seq<char>> {
        if self.held().contains_key(kind) {
            self.held()[kind]
        } else {
            Map::empty()
        }
    }

    /// The rows added under one asset type, empty when it has none.
    pub open spec fn fresh_under(&self, kind: Seq<char>) -> Map<u64, Seq<char>> {
        if self.fresh().contains_key(kind) {
            self.fresh()[kind]
        } else {
            Map::empty()
        }
    }

    /// The parallel lists line up, the asset types are distinct, every table is well formed,
    /// what was added is held, and the counts are the tables' sizes.
    pub closed spec fn wf(&self) -> bool {
        &&& self.tables@.len() == self.kinds@.len()
        &&& self.added@.len() == self.kinds@.len()
        &&& forall|a: int, b: int|
            0 <= a < b < self.kinds@.len() ==> self.kinds@[a]@ != self.kinds@[b]@
        &&& forall|k: int| 0 <= k < self.tables@.len() ==> (#[trigger] self.tables@[k]).wf()
        &&& forall|k: int| 0 <= k < self.added@.len() ==> (#[trigger] self.added@[k]).wf()
        &&& forall|k: int, id: u64|
            0 <= k < self.added@.len() && #[trigger] self.added@[k].view().contains_key(id)
                ==> self.tables@[k].view().contains_key(id) && self.tables@[k].view()[id]
                == self.added@[k].view()[id]
        &&& self.count == rows_in(self.tables@, self.tables@.len() as int)
        &&& self.fresh_count == rows_in(self.added@, self.added@.len() as int)
        &&& self.fresh_count <= self.count
    }

    /// No asset type appears twice.
    spec fn kinds_distinct(&self) -> bool {
        forall|a: int, b: int| 0 <= a < b < self.kinds@.len() ==> self.kinds@[a]@ != self.kinds@[b]@
    }

    /// An asset type's table is the one at its place in the list.
    proof fn lemma_slot_is(&self, k: int)
        requires
            self.kinds_distinct(),
            0 <= k < self.kinds@.len(),
        ensures
            self.slot(self.kinds@[k]@) == k,
            self.kind_list().contains(self.kinds@[k]@),
    {
        let kind = self.kinds@[k]@;
        assert(0 <= k < self.kinds@.len() && self.kinds@[k]@ == kind);
        let s = self.slot(kind);
        assert(0 <= s < self.kinds@.len() && self.kinds@[s]@ == kind);
        if s < k {
            assert(self.kinds@[s]@ != self.kinds@[k]@);
        } else if k < s {
            assert(self.kinds@[k]@ != self.kinds@[s]@);
        }
        assert(self.kind_list()[k] == kind);
    }

    /// An asset type in the list is at some place in it.
    proof fn lemma_listed_kind(&self, kind: Seq<char>) -> (k: int)
        requires
            self.kinds_distinct(),
            self.kind_list().contains(kind),
        ensures
            0 <= k < self.kinds@.len(),
            self.kinds@[k]@ == kind,
            self.slot(kind) == k,
    {
        let k = choose|k: int| 0 <= k < self.kind_list().len() && self.kind_list()[k] == kind;
        assert(self.kinds@[k]@ == kind);
        self.lemma_slot_is(k);
        k
    }

    /// Nothing held, nothing added, and names folded.
    pub fn new() -> (results: Self)
        ensures
            results.wf(),
            results.held() == Map::<Seq<char>, Map<u64, Seq<char>>>::empty(),
            results.fresh() == Map::<Seq<char>, Map<u64, Seq<char>>>::empty(),
            results.size() == 0,
            results.fresh_size() == 0,
            !results.keeps(),
    {
        let results = Results {
            kinds: Vec::new(),
            tables: Vec::new(),
            added: Vec::new(),
            count: 0,
            fresh_count: 0,
            keep_spelling: false,
        };
        assert(results.held() =~= Map::<Seq<char>, Map<u64, Seq<char>>>::empty());
        assert(results.fresh() =~= Map::<Seq<char>, Map<u64, Seq<char>>>::empty());
        results
    }

    /// Keeps names exactly as the search spelled them, for a run whose hash did not fold.
    pub fn keeping_spelling(self) -> (results: Self)
        requires
            self.wf(),
        ensures
            results.wf(),
            results.held() == self.held(),
            results.fresh() == self.fresh(),
            results.size() == self.size(),
            results.fresh_size() == self.fresh_size(),
            results.keeps(),
    {
        Results { keep_spelling: true, ..self }
    }

    /// Where an asset type's table is, if it has one.
    fn slot_of(&self, kind: &str) -> (out: Option<usize>)
        requires
            self.wf(),
        ensures
            out is Some <==> self.kind_list().contains(kind@),
            out matches Some(k) ==> (k as int) < self.kinds@.len() && self.kinds@[k as int]@ == kind@
                && self.slot(kind@) == k,
    {
        let mut k: usize = 0;
        while k < self.kinds.len()
            invariant
                self.wf(),
                k <= self.kinds@.len(),
                forall|j: int| 0 <= j < k ==> self.kinds@[j]@ != kind@,
            decreases self.kinds@.len() - k,
        {
            if crate::text::same_text(self.kinds[k].as_str(), kind) {
                proof {
                    self.lemma_slot_is(k as int);
                }
                return Some(k);
            }
            k = k + 1;
        }
        proof {
            if self.kind_list().contains(kind@) {
                let j = choose|j: int| 0 <= j < self.kind_list().len() && self.kind_list()[j] == kind@;
                assert(self.kinds@[j]@ == kind@);
            }
        }
        None
    }

    /// The table for an asset type, made empty if it has none yet.
    fn slot_for(&mut self, kind: &str) -> (out: usize)
        requires
            old(self).wf(),
        ensures
            final(self).wf(),
            (out as int) < final(self).kinds@.len(),
            final(self).kinds@[out as int]@ == kind@,
            final(self).slot(kind@) == out,
            final(self).held() == if old(self).held().contains_key(kind@) {
                old(self).held()
            } else {
                old(self).held().insert(kind@, Map::empty())
            },
            final(self).fresh() == if old(self).fresh().contains_key(kind@) {
                old(self).fresh()
            } else {
                old(self).fresh().insert(kind@, Map::empty())
            },
            final(self).size() == old(self).size(),
            final(self).fresh_size() == old(self).fresh_size(),
            final(self).keeps() == old(self).keeps(),
    {
        if let Some(k) = self.slot_of(kind) {
            return k;
        }
        let ghost before = *self;
        let k = self.kinds.len();
        self.kinds.push(kind.to_owned());
        self.tables.push(Table::new());
        self.added.push(Table::new());
        proof {
            lemma_rows_in_push(before.tables@, self.tables@[k as int], k as int);
            lemma_rows_in_push(before.added@, self.added@[k as int], k as int);
            assert(self.kind_list() =~= before.kind_list().push(kind@));
            assert forall|a: int, b: int| 0 <= a < b < self.kinds@.len() implies self.kinds@[a]@
                != self.kinds@[b]@ by {
                if b == k {
                    assert(before.kind_list()[a] == self.kinds@[a]@);
                }
            }
            self.lemma_slot_is(k as int);
            assert forall|other: Seq<char>| #[trigger] before.kind_list().contains(other) implies self.slot(
                other,
            ) == before.slot(other) by {
                let j = before.lemma_listed_kind(other);
                assert(self.kinds@[j] == before.kinds@[j]);
                self.lemma_slot_is(j);
            }
            assert forall|j: int, i: u64|
                0 <= j < self.added@.len() && #[trigger] self.added@[j].view().contains_key(i)
                    implies self.tables@[j].view().contains_key(i) && self.tables@[j].view()[i]
                    == self.added@[j].view()[i] by {
                if j < k {
                    assert(self.added@[j] == before.added@[j]);
                    assert(self.tables@[j] == before.tables@[j]);
                }
            }
            assert forall|other: Seq<char>| #[trigger] self.held().contains_key(other) implies self.held()[other]
                == before.held().insert(kind@, Map::empty())[other] by {
                let j = self.lemma_listed_kind(other);
                if j < k {
                    before.lemma_slot_is(j);
                    assert(self.tables@[j] == before.tables@[j]);
                } else {
                    assert(self.tables@[j].view() =~= Map::<u64, Seq<char>>::empty());
                }
            }
            assert forall|other: Seq<char>| #[trigger] self.fresh().contains_key(other) implies self.fresh()[other]
                == before.fresh().insert(kind@, Map::empty())[other] by {
                let j = self.lemma_listed_kind(other);
                if j < k {
                    before.lemma_slot_is(j);
                    assert(self.added@[j] == before.added@[j]);
                } else {
                    assert(self.added@[j].view() =~= Map::<u64, Seq<char>>::empty());
                }
            }
            assert forall|other: Seq<char>| #[trigger] self.held().contains_key(other) <==> before.held().insert(
                kind@,
                Map::empty(),
            ).contains_key(other) by {
                if before.held().contains_key(other) {
                    let j = before.lemma_listed_kind(other);
                    assert(self.kind_list()[j] == other);
                }
            }
            assert(self.held() =~= before.held().insert(kind@, Map::empty()));
            assert(self.fresh() =~= before.fresh().insert(kind@, Map::empty()));
        }
        k
    }

    /// A name as this set writes it down.
    pub fn spelling(&self, name: &str) -> (out: String)
        ensures
            out@ == spelled(name@, self.keeps()),
    {
        if self.keep_spelling {
            return name.to_owned();
        }
        let chars = chars_of(name);
        let mut out = String::new();
        let mut i: usize = 0;
        while i < chars.len()
            invariant
                i <= chars@.len(),
                chars@ == name@,
                out@ == chars@.take(i as int).map_values(|c: char| if c == '\\' { '/' } else { c }),
            decreases chars@.len() - i,
        {
            let c = chars[i];
            push_char(&mut out, if c == '\\' { '/' } else { c });
            assert(out@ =~= chars@.take(i + 1).map_values(
                |c: char|
                    if c == '\\' {
                        '/'
                    } else {
                        c
                    },
            ));
            i = i + 1;
        }
        assert(chars@.take(chars@.len() as int) =~= chars@);
        out
    }

    /// Adds a name, keeping the first spelling that reached an id.
    ///
    /// A scraped line may separate its directories with backslashes; unless spelling is being
    /// kept, the name is written with forward slashes. A name already held under its id is not
    /// an addition, however it was arrived at, so what is held only ever grows and a name once
    /// held is never changed.
    ///
    /// A name of an odd shape for its kind (see [`odd_for_pool`]) is kept all the same; why it
    /// is odd comes back, for the caller to show a person.
    pub fn add(&mut self, kind: &str, id: u64, name: String) -> (why: Option<String>)
        requires
            old(self).wf(),
            old(self).size() < usize::MAX,
        ensures
            why matches Some(w) ==> oddity(kind@, spelled(name@, old(self).keeps())) == Some(w@),
            why is None ==> oddity(kind@, spelled(name@, old(self).keeps())) is None,
            final(self).wf(),
            final(self).keeps() == old(self).keeps(),
            final(self).held() == if old(self).held_under(kind@).contains_key(id) {
                old(self).held()
            } else {
                old(self).held().insert(
                    kind@,
                    old(self).held_under(kind@).insert(id, spelled(name@, old(self).keeps())),
                )
            },
            final(self).fresh() == if old(self).held_under(kind@).contains_key(id) {
                old(self).fresh()
            } else {
                old(self).fresh().insert(
                    kind@,
                    old(self).fresh_under(kind@).insert(id, spelled(name@, old(self).keeps())),
                )
            },
            final(self).size() == old(self).size() + if old(self).held_under(kind@).contains_key(
                id,
            ) {
                0int
            } else {
                1int
            },
            final(self).fresh_size() == old(self).fresh_size() + if old(self).held_under(
                kind@,
            ).contains_key(id) {
                0int
            } else {
                1int
            },
            forall|k: Seq<char>, i: u64|
                #[trigger] old(self).held_under(k).contains_key(i) ==> final(self).held_under(
                    k,
                ).contains_key(i) && final(self).held_under(k)[i] == old(self).held_under(k)[i],
    {
        let ghost given = name@;
        let name = self.spelling(name.as_str());
        let why = odd_for_pool(kind, name.as_str());
        let ghost start = *self;
        let k = self.slot_for(kind);
        let ghost middle = *self;
        proof {
            middle.lemma_slot_is(k as int);
            assert(middle.held_under(kind@) == start.held_under(kind@));
        }
        if self.tables[k].find(id).is_some() {
            proof {
                assert(start.held().contains_key(kind@));
                assert(start.fresh().contains_key(kind@));
            }
            return why;
        }
        proof {
            assert(!self.added@[k as int].view().contains_key(id));
            lemma_rows_in_prefix(self.tables@, k as int + 1, self.tables@.len() as int);
            lemma_rows_in_nonneg(self.tables@, k as int);
            lemma_rows_in_prefix(self.added@, k as int + 1, self.added@.len() as int);
            lemma_rows_in_nonneg(self.added@, k as int);
        }
        self.tables[k].insert_new(id, name.clone());
        self.added[k].insert_new(id, name);
        self.count = self.count + 1;
        self.fresh_count = self.fresh_count + 1;
        proof {
            lemma_rows_in_update(middle.tables@, k as int, self.tables@[k as int], middle.tables@.len() as int);
            lemma_rows_in_update(middle.added@, k as int, self.added@[k as int], middle.added@.len() as int);
            assert(self.tables@ == middle.tables@.update(k as int, self.tables@[k as int]));
            assert(self.added@ == middle.added@.update(k as int, self.added@[k as int]));
            assert(self.kinds@ == middle.kinds@);
            assert(self.kind_list() == middle.kind_list());
            assert forall|j: int, i: u64|
                0 <= j < self.added@.len() && #[trigger] self.added@[j].view().contains_key(i)
                    implies self.tables@[j].view().contains_key(i) && self.tables@[j].view()[i]
                    == self.added@[j].view()[i] by {
                if j != k {
                    assert(self.added@[j] == middle.added@[j]);
                    assert(self.tables@[j] == middle.tables@[j]);
                }
            }
            assert forall|other: Seq<char>| #[trigger] self.held().contains_key(other) implies self.held()[other]
                == middle.held().insert(kind@, middle.held_under(kind@).insert(id, name@))[other] by {
                let j = self.lemma_listed_kind(other);
                middle.lemma_slot_is(j);
            }
            assert(self.held() =~= middle.held().insert(
                kind@,
                middle.held_under(kind@).insert(id, name@),
            ));
            assert(self.held() =~= start.held().insert(
                kind@,
                start.held_under(kind@).insert(id, spelled(given, start.keeps())),
            ));
            assert forall|other: Seq<char>| #[trigger] self.fresh().contains_key(other) implies self.fresh()[other]
                == middle.fresh().insert(kind@, middle.fresh_under(kind@).insert(id, name@))[other] by {
                let j = self.lemma_listed_kind(other);
                middle.lemma_slot_is(j);
            }
            assert(self.fresh() =~= middle.fresh().insert(
                kind@,
                middle.fresh_under(kind@).insert(id, name@),
            ));
            assert(middle.fresh_under(kind@) == start.fresh_under(kind@));
            assert(self.fresh() =~= start.fresh().insert(
                kind@,
                start.fresh_under(kind@).insert(id, spelled(given, start.keeps())),
            ));
        }
        why
    }

    /// Every id already held, whatever type it is filed under.
    pub fn ids(&self) -> (out: HashSet<u64>)
        requires
            self.wf(),
        ensures
            forall|id: u64| #[trigger] out@.contains(id) <==> exists|kind: Seq<char>|
                #[trigger] self.held_under(kind).contains_key(id),
    {
        let mut out: HashSet<u64> = HashSet::new();
        let mut k: usize = 0;
        while k < self.tables.len()
            invariant
                self.wf(),
                k <= self.tables@.len(),
                forall|id: u64| #[trigger] out@.contains(id) <==> exists|j: int|
                    0 <= j < k && #[trigger] self.tables@[j].view().contains_key(id),
            decreases self.tables@.len() - k,
        {
            let table = &self.tables[k];
            let mut r: usize = 0;
            while r < table.rows.len()
                invariant
                    self.wf(),
                    k < self.tables@.len(),
                    *table == self.tables@[k as int],
                    r <= table.rows@.len(),
                    forall|id: u64| #[trigger] out@.contains(id) <==> (exists|j: int|
                        0 <= j < k && #[trigger] self.tables@[j].view().contains_key(id)) || exists|
                        p: int,
                    | 0 <= p < r && #[trigger] table.rows@[p].0 == id,
                decreases table.rows@.len() - r,
            {
                out.insert(table.rows[r].0);
                r = r + 1;
            }
            proof {
                assert forall|id: u64| #[trigger] out@.contains(id) <==> exists|j: int|
                    0 <= j < k + 1 && #[trigger] self.tables@[j].view().contains_key(id) by {
                    if exists|p: int| 0 <= p < table.rows@.len() && #[trigger] table.rows@[p].0 == id {
                        let p = choose|p: int| 0 <= p < table.rows@.len() && #[trigger] table.rows@[p].0
                            == id;
                        lemma_rows_held(table, p);
                    }
                    if table.view().contains_key(id) {
                        let p = table.at@[id] as int;
                        assert(table.rows@[p].0 == id);
                    }
                }
            }
            k = k + 1;
        }
        proof {
            assert forall|id: u64| #[trigger] out@.contains(id) <==> exists|kind: Seq<char>|
                #[trigger] self.held_under(kind).contains_key(id) by {
                if out@.contains(id) {
                    let j = choose|j: int|
                        0 <= j < self.tables@.len() && #[trigger] self.tables@[j].view().contains_key(id);
                    self.lemma_slot_is(j);
                    assert(self.held_under(self.kinds@[j]@).contains_key(id));
                }
                if exists|kind: Seq<char>| #[trigger] self.held_under(kind).contains_key(id) {
                    let kind = choose|kind: Seq<char>| #[trigger] self.held_under(kind).contains_key(id);
                    let j = self.lemma_listed_kind(kind);
                    assert(self.tables@[j].view().contains_key(id));
                }
            }
        }
        out
    }

    /// The names held under one type, one per id.
    pub fn names(&self, kind: &str) -> (out: Vec<String>)
        requires
            self.wf(),
        ensures
            exists|order: Seq<u64>|
                #![trigger order.to_set()]
                order.no_duplicates() && order.to_set() == self.held_under(kind@).dom()
                    && order.len() == out@.len() && forall|i: int|
                    0 <= i < out@.len() ==> #[trigger] out@[i]@ == self.held_under(kind@)[order[i]],
    {
        match self.slot_of(kind) {
            Some(k) => {
                let table = &self.tables[k];
                let out = table.names();
                proof {
                    let order = table.rows@.map_values(|row: (u64, String)| row.0);
                    lemma_table_order(table);
                    assert(self.held_under(kind@) == table.view());
                    assert forall|i: int| 0 <= i < out@.len() implies #[trigger] out@[i]@
                        == self.held_under(kind@)[order[i]] by {
                        lemma_rows_held(table, i);
                    }
                }
                out
            },
            None => {
                let out: Vec<String> = Vec::new();
                proof {
                    let order = Seq::<u64>::empty();
                    assert(self.held_under(kind@) == Map::<u64, Seq<char>>::empty());
                    assert(order.to_set() =~= Set::<u64>::empty());
                    assert(self.held_under(kind@).dom() =~= Set::<u64>::empty());
                }
                out
            },
        }
    }

    /// Whether the pair names a row held, and, when only sensible names are wanted, one whose
    /// shape would not teach a later pass the wrong convention.
    pub open spec fn gathered(&self, pair: (Seq<char>, u64), sensible: bool) -> bool {
        &&& self.held_under(pair.0).contains_key(pair.1)
        &&& sensible ==> oddity(pair.0, self.held_under(pair.0)[pair.1]) is None
    }

    /// Every name held, whatever type it is filed under, one per row.
    ///
    /// These are proven patterns, so they go back in as seeds: each one suggests siblings the
    /// same rules can now reach.
    pub fn all_names(&self) -> (out: Vec<String>)
        requires
            self.wf(),
        ensures
            exists|order: Seq<(Seq<char>, u64)>|
                #![trigger order.no_duplicates()]
                order.no_duplicates() && order.len() == out@.len() && (forall|pair: (Seq<char>, u64)|
                    #[trigger] order.contains(pair) <==> self.gathered(pair, false)) && forall|i: int|
                    0 <= i < out@.len() ==> #[trigger] out@[i]@ == self.held_under(order[i].0)[order[i].1],
    {
        self.gather(false)
    }

    /// The same, minus anything whose shape would teach a later pass the wrong convention.
    ///
    /// A confirmed name is kept forever and submitted; that is not in question. But it is also
    /// fed back in as raw material, and a real-but-unrepresentative name is harmful there. Keep
    /// the name, decline the lesson.
    pub fn seed_names(&self) -> (out: Vec<String>)
        requires
            self.wf(),
        ensures
            exists|order: Seq<(Seq<char>, u64)>|
                #![trigger order.no_duplicates()]
                order.no_duplicates() && order.len() == out@.len() && (forall|pair: (Seq<char>, u64)|
                    #[trigger] order.contains(pair) <==> self.gathered(pair, true)) && forall|i: int|
                    0 <= i < out@.len() ==> #[trigger] out@[i]@ == self.held_under(order[i].0)[order[i].1],
    {
        self.gather(true)
    }

    fn gather(&self, sensible: bool) -> (out: Vec<String>)
        requires
            self.wf(),
        ensures
            exists|order: Seq<(Seq<char>, u64)>|
                #![trigger order.no_duplicates()]
                order.no_duplicates() && order.len() == out@.len() && (forall|pair: (Seq<char>, u64)|
                    #[trigger] order.contains(pair) <==> self.gathered(pair, sensible)) && forall|i: int|
                    0 <= i < out@.len() ==> #[trigger] out@[i]@ == self.held_under(order[i].0)[order[i].1],
    {
        let mut out: Vec<String> = Vec::new();
        let ghost mut order: Seq<(Seq<char>, u64)> = Seq::empty();
        let mut k: usize = 0;
        while k < self.tables.len()
            invariant
                self.wf(),
                k <= self.tables@.len(),
                order.no_duplicates(),
                order.len() == out@.len(),
                forall|i: int|
                    0 <= i < out@.len() ==> #[trigger] out@[i]@ == self.held_under(order[i].0)[order[i].1],
                forall|pair: (Seq<char>, u64)|
                    #[trigger] order.contains(pair) <==> self.gathered(pair, sensible) && exists|j: int|
                        0 <= j < k && #[trigger] self.kinds@[j]@ == pair.0,
            decreases self.tables@.len() - k,
        {
            let table = &self.tables[k];
            let kind = self.kinds[k].as_str();
            proof {
                self.lemma_slot_is(k as int);
                assert(self.held_under(kind@) == table.view());
            }
            let ghost before = order;
            proof {
                assert forall|pair: (Seq<char>, u64)| #[trigger] before.contains(pair) implies pair.0
                    != kind@ by {
                    let j = choose|j: int| 0 <= j < k && #[trigger] self.kinds@[j]@ == pair.0;
                    assert(self.kinds@[j]@ != self.kinds@[k as int]@);
                }
            }
            let mut r: usize = 0;
            while r < table.rows.len()
                invariant
                    self.wf(),
                    k < self.tables@.len(),
                    *table == self.tables@[k as int],
                    kind@ == self.kinds@[k as int]@,
                    self.held_under(kind@) == table.view(),
                    r <= table.rows@.len(),
                    order.no_duplicates(),
                    order.len() == out@.len(),
                    forall|i: int|
                        0 <= i < out@.len() ==> #[trigger] out@[i]@ == self.held_under(order[i].0)[order[i].1],
                    forall|pair: (Seq<char>, u64)|
                        #[trigger] order.contains(pair) <==> (before.contains(pair) || (pair.0 == kind@
                            && self.gathered(pair, sensible) && exists|q: int|
                            0 <= q < r && #[trigger] table.rows@[q].0 == pair.1)),
                    forall|pair: (Seq<char>, u64)| #[trigger] before.contains(pair) ==> pair.0 != kind@,
                decreases table.rows@.len() - r,
            {
                let name = &table.rows[r].1;
                let ghost pair = (kind@, table.rows@[r as int].0);
                let ghost prior = order;
                proof {
                    lemma_rows_held(table, r as int);
                }
                let keep = if sensible {
                    odd_for_pool(kind, name.as_str()).is_none()
                } else {
                    true
                };
                assert(keep == self.gathered(pair, sensible));
                if keep {
                    proof {
                        assert(!order.contains(pair)) by {
                            if order.contains(pair) {
                                if !before.contains(pair) {
                                    let q = choose|q: int|
                                        0 <= q < r && #[trigger] table.rows@[q].0 == pair.1;
                                    assert(table.at@[table.rows@[q].0] == q);
                                    assert(table.at@[table.rows@[r as int].0] == r);
                                }
                            }
                        }
                        assert forall|a: int, b: int|
                            0 <= a < order.push(pair).len() && 0 <= b < order.push(pair).len() && a
                                != b implies order.push(pair)[a] != order.push(pair)[b] by {
                            if a == order.len() {
                                assert(order.contains(order[b]));
                            } else if b == order.len() {
                                assert(order.contains(order[a]));
                            }
                        }
                    }
                    out.push(name.clone());
                    proof {
                        order = order.push(pair);
                    }
                }
                proof {
                    assert(order == if keep { prior.push(pair) } else { prior });
                    assert forall|p: (Seq<char>, u64)| #[trigger] order.contains(p) <==> (before.contains(p) || (
                    p.0 == kind@ && self.gathered(p, sensible) && exists|q: int|
                        0 <= q < r + 1 && #[trigger] table.rows@[q].0 == p.1)) by {
                        if keep && p == pair {
                            assert(order[order.len() - 1] == p);
                        }
                        if order.contains(p) && !prior.contains(p) {
                            assert(keep);
                            let x = choose|x: int| 0 <= x < order.len() && order[x] == p;
                            assert(x == order.len() - 1);
                            assert(p == pair);
                        }
                        if p.0 == kind@ && self.gathered(p, sensible) && table.rows@[r as int].0 == p.1 {
                            assert(p == pair);
                        }
                        if prior.contains(p) {
                            let x = choose|x: int| 0 <= x < prior.len() && prior[x] == p;
                            assert(order[x] == p);
                        }
                    }
                }
                r = r + 1;
            }
            proof {
                assert forall|pair: (Seq<char>, u64)| #[trigger] order.contains(pair) <==> self.gathered(
                    pair,
                    sensible,
                ) && exists|j: int| 0 <= j < k + 1 && #[trigger] self.kinds@[j]@ == pair.0 by {
                    if pair.0 == kind@ && self.gathered(pair, sensible) {
                        let p = table.at@[pair.1] as int;
                        assert(table.rows@[p].0 == pair.1);
                    }
                }
            }
            k = k + 1;
        }
        proof {
            assert forall|pair: (Seq<char>, u64)| #[trigger] order.contains(pair) <==> self.gathered(
                pair,
                sensible,
            ) by {
                if self.gathered(pair, sensible) {
                    let j = self.lemma_listed_kind(pair.0);
                }
            }
        }
        out
    }

    /// Merges rows read from a file into an asset type's table: a row for an id already held
    /// replaces its name, as reading the file over what was there does.
    fn absorb(&mut self, kind: &str, rows: &Vec<(u64, String)>)
        requires
            old(self).wf(),
            old(self).fresh_size() == 0,
            old(self).size() + rows@.len() <= usize::MAX,
        ensures
            final(self).wf(),
            final(self).held() == old(self).held().insert(
                kind@,
                old(self).held_under(kind@).union_prefer_right(rows_map(rows@)),
            ),
            final(self).size() <= old(self).size() + rows@.len(),
            final(self).fresh_size() == 0,
            final(self).keeps() == old(self).keeps(),
    {
        let ghost start = *self;
        let k = self.slot_for(kind);
        let ghost middle = *self;
        proof {
            middle.lemma_slot_is(k as int);
            middle.lemma_nothing_added();
        }
        let mut i: usize = 0;
        while i < rows.len()
            invariant
                self.wf(),
                i <= rows@.len(),
                (k as int) < self.kinds@.len(),
                self.kinds@ == middle.kinds@,
                self.added@ == middle.added@,
                self.fresh_count == 0,
                self.keep_spelling == middle.keep_spelling,
                self.size() <= middle.size() + i,
                middle.size() + rows@.len() <= usize::MAX,
                forall|j: int| 0 <= j < middle.added@.len() ==> #[trigger] middle.added@[j].view()
                    == Map::<u64, Seq<char>>::empty(),
                forall|j: int| 0 <= j < self.tables@.len() && j != k ==> self.tables@[j] == middle.tables@[j],
                self.tables@[k as int].view() == middle.tables@[k as int].view().union_prefer_right(
                    rows_map(rows@.take(i as int)),
                ),
            decreases rows@.len() - i,
        {
            let ghost prior = *self;
            let id = rows[i].0;
            let name = rows[i].1.clone();
            proof {
                assert(rows@.take(i + 1).drop_last() =~= rows@.take(i as int));
                assert(rows_map(rows@.take(i + 1)) == rows_map(rows@.take(i as int)).insert(id, name@));
                assert(middle.tables@[k as int].view().union_prefer_right(
                    rows_map(rows@.take(i as int)).insert(id, name@),
                ) =~= middle.tables@[k as int].view().union_prefer_right(
                    rows_map(rows@.take(i as int)),
                ).insert(id, name@));
            }
            match self.tables[k].find(id) {
                Some(place) => {
                    self.tables[k].rename(place, name);
                    proof {
                        lemma_rows_in_update(prior.tables@, k as int, self.tables@[k as int], prior.tables@.len() as int);
                        assert(self.tables@ == prior.tables@.update(k as int, self.tables@[k as int]));
                    }
                },
                None => {
                    proof {
                        lemma_rows_in_prefix(self.tables@, k as int + 1, self.tables@.len() as int);
                        lemma_rows_in_nonneg(self.tables@, k as int);
                    }
                    self.tables[k].insert_new(id, name);
                    self.count = self.count + 1;
                    proof {
                        lemma_rows_in_update(prior.tables@, k as int, self.tables@[k as int], prior.tables@.len() as int);
                        assert(self.tables@ == prior.tables@.update(k as int, self.tables@[k as int]));
                    }
                },
            }
            i = i + 1;
        }
        proof {
            assert(rows@.take(rows@.len() as int) =~= rows@);
            assert forall|other: Seq<char>| #[trigger] self.held().contains_key(other) implies self.held()[other]
                == middle.held().insert(
                kind@,
                middle.held_under(kind@).union_prefer_right(rows_map(rows@)),
            )[other] by {
                let j = self.lemma_listed_kind(other);
                middle.lemma_slot_is(j);
            }
            assert(self.held() =~= middle.held().insert(
                kind@,
                middle.held_under(kind@).union_prefer_right(rows_map(rows@)),
            ));
            assert(middle.held_under(kind@) == start.held_under(kind@));
            assert(self.held() =~= start.held().insert(
                kind@,
                start.held_under(kind@).union_prefer_right(rows_map(rows@)),
            ));
        }
    }

    /// Nothing added means every added table is empty.
    proof fn lemma_nothing_added(&self)
        requires
            self.wf(),
            self.fresh_size() == 0,
        ensures
            forall|j: int| 0 <= j < self.added@.len() ==> #[trigger] self.added@[j].view()
                == Map::<u64, Seq<char>>::empty(),
    {
        assert forall|j: int| 0 <= j < self.added@.len() implies #[trigger] self.added@[j].view()
            == Map::<u64, Seq<char>>::empty() by {
            lemma_rows_in_prefix(self.added@, j + 1, self.added@.len() as int);
            lemma_rows_in_nonneg(self.added@, j);
            assert(self.added@[j].rows@.len() == 0);
            assert(self.added@[j].view() =~= Map::<u64, Seq<char>>::empty());
        }
    }

    /// What was already in a folder: each file's rows merged into its type's, a later row for an
    /// id replacing an earlier one, and nothing counted as added.
    pub fn loaded(files: &Vec<(String, Vec<(u64, String)>)>) -> (results: Self)
        requires
            file_rows(files@, files@.len() as int) <= usize::MAX,
        ensures
            results.wf(),
            results.held() == loaded_spec(files@, files@.len() as int),
            results.fresh_size() == 0,
            !results.keeps(),
    {
        let mut results = Results::new();
        let mut f: usize = 0;
        while f < files.len()
            invariant
                f <= files@.len(),
                results.wf(),
                results.fresh_size() == 0,
                !results.keeps(),
                results.held() == loaded_spec(files@, f as int),
                results.size() <= file_rows(files@, f as int),
                file_rows(files@, files@.len() as int) <= usize::MAX,
            decreases files@.len() - f,
        {
            proof {
                lemma_file_rows_prefix(files@, f + 1, files@.len() as int);
            }
            results.absorb(files[f].0.as_str(), &files[f].1);
            f = f + 1;
        }
        results
    }

    /// How many rows are held.
    pub fn len(&self) -> (out: usize)
        ensures
            out == self.size(),
    {
        self.count
    }

    /// Whether nothing is held.
    pub fn is_empty(&self) -> (out: bool)
        ensures
            out == (self.size() == 0),
    {
        self.count == 0
    }

    /// The asset types held, in order of name, each with where its tables are.
    #[verifier::spinoff_prover]
    fn kinds_in_order(&self) -> (out: Vec<(String, usize)>)
        requires
            self.wf(),
        ensures
            forall|i: int|
                0 <= i < out@.len() ==> ((#[trigger] out@[i]).1 as int) < self.kinds@.len()
                    && self.kinds@[out@[i].1 as int]@ == out@[i].0@,
            forall|kind: Seq<char>|
                #[trigger] self.kind_list().contains(kind) ==> exists|i: int|
                    0 <= i < out@.len() && out@[i].0@ == kind,
            forall|i: int, j: int| 0 <= i < j < out@.len() ==> text_before(out@[i].0@, out@[j].0@),
    {
        let mut names: Vec<String> = Vec::new();
        let mut k: usize = 0;
        while k < self.kinds.len()
            invariant
                k <= self.kinds@.len(),
                names@.len() == k,
                forall|q: int| 0 <= q < k ==> #[trigger] names@[q]@ == self.kinds@[q]@,
            decreases self.kinds@.len() - k,
        {
            names.push(self.kinds[k].clone());
            k = k + 1;
        }
        let ghost unsorted = names@;
        assert(unsorted.len() == self.kinds@.len());
        assert forall|q: int| 0 <= q < unsorted.len() implies #[trigger] unsorted[q]@
            == self.kinds@[q]@ by {
            assert(names@[q]@ == self.kinds@[q]@);
        }
        assert(unsorted.no_duplicates()) by {
            assert forall|p: int, q: int|
                0 <= p < unsorted.len() && 0 <= q < unsorted.len() && p != q implies unsorted[p]
                != unsorted[q] by {
                assert(unsorted[p]@ == self.kinds@[p]@);
                assert(unsorted[q]@ == self.kinds@[q]@);
                if p < q {
                    assert(self.kinds@[p]@ != self.kinds@[q]@);
                } else {
                    assert(self.kinds@[q]@ != self.kinds@[p]@);
                }
            }
        }
        proof {
            unsorted.lemma_multiset_has_no_duplicates();
        }
        sort_texts(&mut names);
        let ghost sorted = names@;
        proof {
            assert(sorted.no_duplicates()) by {
                assert forall|x: String| sorted.to_multiset().contains(x) implies sorted.to_multiset().count(x) == 1 by {
                    assert(unsorted.to_multiset().contains(x));
                }
                sorted.lemma_multiset_has_no_duplicates_conv();
            }
        }
        let mut out: Vec<(String, usize)> = Vec::new();
        let mut j: usize = 0;
        while j < names.len()
            invariant
                self.wf(),
                j <= names@.len(),
                names@ == sorted,
                out@.len() == j,
                unsorted.len() == self.kinds@.len(),
                forall|i: int|
                    0 <= i < j ==> (#[trigger] out@[i]).0@ == sorted[i]@ && (out@[i].1 as int)
                        < self.kinds@.len() && self.kinds@[out@[i].1 as int]@ == sorted[i]@,
                unsorted.to_multiset() == sorted.to_multiset(),
                forall|q: int| 0 <= q < unsorted.len() ==> #[trigger] unsorted[q]@ == self.kinds@[q]@,
            decreases names@.len() - j,
        {
            proof {
                let p = lemma_came_from(unsorted, sorted, j as int);
                assert(unsorted[p]@ == self.kinds@[p]@);
                assert(self.kind_list()[p] == sorted[j as int]@);
                assert(self.kind_list().contains(sorted[j as int]@));
            }
            match self.slot_of(names[j].as_str()) {
                Some(k) => {
                    out.push((names[j].clone(), k));
                },
                None => {
                    assert(false);
                },
            }
            j = j + 1;
        }
        proof {
            assert forall|kind: Seq<char>| #[trigger] self.kind_list().contains(kind) implies exists|i: int|
                0 <= i < out@.len() && out@[i].0@ == kind by {
                let slot = self.lemma_listed_kind(kind);
                assert(unsorted.contains(unsorted[slot]));
                assert(unsorted.to_multiset().count(unsorted[slot]) > 0);
                assert(sorted.to_multiset().count(unsorted[slot]) > 0);
                assert(sorted.contains(unsorted[slot]));
                let i = choose|i: int| 0 <= i < sorted.len() && sorted[i] == unsorted[slot];
                let other = out@[i].1 as int;
                assert(sorted[i]@ == self.kinds@[slot]@);
                assert(out@[i].0@ == sorted[i]@);
                assert(self.kinds@[other]@ == self.kinds@[slot]@);
                if other < slot {
                    assert(self.kinds@[other]@ != self.kinds@[slot]@);
                } else if slot < other {
                    assert(self.kinds@[slot]@ != self.kinds@[other]@);
                }
                assert(out@[i].0@ == kind);
            }
            assert forall|i: int, j: int| 0 <= i < j < out@.len() implies text_before(
                out@[i].0@,
                out@[j].0@,
            ) by {
                assert(out@[i].0@ == sorted[i]@);
                assert(out@[j].0@ == sorted[j]@);
                if sorted[i]@ == sorted[j]@ {
                    let p = lemma_came_from(unsorted, sorted, i);
                    let q = lemma_came_from(unsorted, sorted, j);
                    assert(self.kinds@[p]@ == self.kinds@[q]@);
                    if p < q {
                        assert(self.kinds@[p]@ != self.kinds@[q]@);
                    } else if q < p {
                        assert(self.kinds@[q]@ != self.kinds@[p]@);
                    }
                    assert(sorted[i] == sorted[j]);
                }
            }
        }
        out
    }

    /// What `write` puts in the results folder: one file for each asset type held, in order of
    /// name, each with its rows, how many rows that is, and how many this run added.
    pub fn files(&self) -> (out: Vec<(String, String, usize, usize)>)
        requires
            self.wf(),
        ensures
            forall|i: int|
                0 <= i < out@.len() ==> self.held().contains_key(#[trigger] out@[i].0@)
                    && file_lists(out@[i].1@, self.held()[out@[i].0@]) && out@[i].2
                    == self.held()[out@[i].0@].len() && out@[i].3 == self.fresh_under(
                    out@[i].0@,
                ).len(),
            forall|kind: Seq<char>|
                #[trigger] self.held().contains_key(kind) ==> exists|i: int|
                    0 <= i < out@.len() && out@[i].0@ == kind,
            forall|i: int, j: int| 0 <= i < j < out@.len() ==> text_before(out@[i].0@, out@[j].0@),
    {
        let order = self.kinds_in_order();
        let mut out: Vec<(String, String, usize, usize)> = Vec::new();
        let mut i: usize = 0;
        while i < order.len()
            invariant
                self.wf(),
                i <= order@.len(),
                out@.len() == i,
                forall|q: int|
                    0 <= q < order@.len() ==> ((#[trigger] order@[q]).1 as int) < self.kinds@.len()
                        && self.kinds@[order@[q].1 as int]@ == order@[q].0@,
                forall|q: int|
                    0 <= q < i ==> (#[trigger] out@[q]).0@ == order@[q].0@ && self.held().contains_key(
                        out@[q].0@,
                    ) && file_lists(out@[q].1@, self.held()[out@[q].0@]) && out@[q].2
                        == self.held()[out@[q].0@].len() && out@[q].3 == self.fresh_under(
                        out@[q].0@,
                    ).len(),
            decreases order@.len() - i,
        {
            let k = order[i].1;
            proof {
                self.lemma_slot_is(k as int);
                self.tables@[k as int].lemma_size();
                self.added@[k as int].lemma_size();
            }
            let text = self.tables[k].file_text();
            out.push(
                (order[i].0.clone(), text, self.tables[k].rows.len(), self.added[k].rows.len()),
            );
            i = i + 1;
        }
        proof {
            assert forall|kind: Seq<char>| #[trigger] self.held().contains_key(kind) implies exists|i: int|
                0 <= i < out@.len() && out@[i].0@ == kind by {
                assert(self.kind_list().contains(kind));
                let i = choose|i: int| 0 <= i < order@.len() && order@[i].0@ == kind;
                assert(out@[i].0@ == kind);
            }
            assert forall|a: int, b: int| 0 <= a < b < out@.len() implies text_before(
                out@[a].0@,
                out@[b].0@,
            ) by {
                assert(out@[a].0@ == order@[a].0@);
                assert(out@[b].0@ == order@[b].0@);
            }
        }
        out
    }

    /// What a run's own folder gets: one file for each asset type this run added to, in order
    /// of name, each with the rows this run added.
    pub fn run_files(&self) -> (out: Vec<(String, String)>)
        requires
            self.wf(),
        ensures
            forall|i: int|
                0 <= i < out@.len() ==> self.fresh_under((#[trigger] out@[i]).0@).len() > 0
                    && file_lists(out@[i].1@, self.fresh_under(out@[i].0@)),
            forall|kind: Seq<char>|
                #[trigger] self.fresh_under(kind).len() > 0 ==> exists|i: int|
                    0 <= i < out@.len() && out@[i].0@ == kind,
            forall|i: int, j: int| 0 <= i < j < out@.len() ==> text_before(out@[i].0@, out@[j].0@),
    {
        let order = self.kinds_in_order();
        let mut out: Vec<(String, String)> = Vec::new();
        let ghost mut from: Seq<int> = Seq::empty();
        let mut i: usize = 0;
        while i < order.len()
            invariant
                self.wf(),
                i <= order@.len(),
                out@.len() == from.len(),
                forall|q: int|
                    0 <= q < order@.len() ==> ((#[trigger] order@[q]).1 as int) < self.kinds@.len()
                        && self.kinds@[order@[q].1 as int]@ == order@[q].0@,
                forall|a: int, b: int|
                    0 <= a < b < order@.len() ==> text_before(order@[a].0@, order@[b].0@),
                forall|q: int|
                    0 <= q < from.len() ==> 0 <= #[trigger] from[q] < i && out@[q].0@
                        == order@[from[q]].0@ && self.fresh_under(out@[q].0@).len() > 0
                        && file_lists(out@[q].1@, self.fresh_under(out@[q].0@)),
                forall|a: int, b: int| 0 <= a < b < from.len() ==> from[a] < from[b],
                forall|q: int|
                    0 <= q < i && self.fresh_under(#[trigger] order@[q].0@).len() > 0 ==> exists|
                        p: int,
                    | 0 <= p < from.len() && from[p] == q,
            decreases order@.len() - i,
        {
            let k = order[i].1;
            proof {
                self.lemma_slot_is(k as int);
                self.added@[k as int].lemma_size();
            }
            let ghost before = from;
            if self.added[k].rows.len() > 0 {
                let text = self.added[k].file_text();
                out.push((order[i].0.clone(), text));
                proof {
                    from = from.push(i as int);
                }
            }
            proof {
                assert forall|q: int|
                    0 <= q < i + 1 && self.fresh_under(#[trigger] order@[q].0@).len() > 0 implies exists|
                        p: int,
                    | 0 <= p < from.len() && from[p] == q by {
                    if q < i {
                        let p = choose|p: int| 0 <= p < before.len() && before[p] == q;
                        assert(from[p] == q);
                    } else {
                        assert(from[from.len() - 1] == q);
                    }
                }
            }
            i = i + 1;
        }
        proof {
            assert forall|kind: Seq<char>| #[trigger] self.fresh_under(kind).len() > 0 implies exists|i: int|
                0 <= i < out@.len() && out@[i].0@ == kind by {
                assert(self.fresh().contains_key(kind));
                assert(self.kind_list().contains(kind));
                let q = choose|q: int| 0 <= q < order@.len() && order@[q].0@ == kind;
                assert(order@[q].0@ == kind);
                let p = choose|p: int| 0 <= p < from.len() && from[p] == q;
                assert(out@[p].0@ == kind);
            }
            assert forall|a: int, b: int| 0 <= a < b < out@.len() implies text_before(
                out@[a].0@,
                out@[b].0@,
            ) by {
                assert(from[a] < from[b]);
            }
            assert forall|q: int| 0 <= q < out@.len() implies self.fresh_under(
                (#[trigger] out@[q]).0@,
            ).len() > 0 && file_lists(out@[q].1@, self.fresh_under(out@[q].0@)) by {
                assert(0 <= from[q]);
            }
        }
        out
    }

    /// How many asset types are held.
    pub fn kinds(&self) -> (out: usize)
        requires
            self.wf(),
        ensures
            out == self.held().dom().len(),
    {
        proof {
            assert(self.kind_list().no_duplicates()) by {
                assert forall|a: int, b: int|
                    0 <= a < self.kind_list().len() && 0 <= b < self.kind_list().len() && a != b
                        implies self.kind_list()[a] != self.kind_list()[b] by {
                    if a < b {
                        assert(self.kinds@[a]@ != self.kinds@[b]@);
                    } else {
                        assert(self.kinds@[b]@ != self.kinds@[a]@);
                    }
                }
            }
            assert(self.held().dom() =~= self.kind_list().to_set());
            self.kind_list().unique_seq_to_set();
        }
        self.kinds.len()
    }

    /// The folder a run's own finds go into, named for when it ran and what it ran as:
    /// `run_<when>_<label>`. None when the run added nothing, since an empty folder per barren
    /// pass would bury the ones that were not.
    pub fn run_folder(&self, when: &str, label: &str) -> (out: Option<String>)
        ensures
            out is None <==> self.fresh_size() == 0,
            out matches Some(folder) ==> folder@ == "run_"@ + when@ + "_"@ + label@,
    {
        if self.added() == 0 {
            return None;
        }
        let mut folder = String::new();
        folder.append("run_");
        folder.append(when);
        folder.append("_");
        folder.append(label);
        assert(folder@ =~= "run_"@ + when@ + "_"@ + label@);
        Some(folder)
    }

    /// What this run added.
    pub fn added(&self) -> (out: usize)
        ensures
            out == self.fresh_size(),
    {
        self.fresh_count
    }
}

/// The rows of one file as a map from id to name: a later row for an id replaces an earlier one.
pub open spec fn rows_map(rows: Seq<(u64, String)>) -> Map<u64, Seq<char>>
    decreases rows.len(),
{
    if rows.len() == 0 {
        Map::empty()
    } else {
        rows_map(rows.drop_last()).insert(rows.last().0, rows.last().1@)
    }
}

/// Rows that list a table, each id once, make that table.
proof fn lemma_rows_map_lists(read: Seq<(u64, String)>, table: Map<u64, Seq<char>>)
    requires
        lists_in_order(row_texts(read), table),
    ensures
        rows_map(read) == table,
    decreases read.len(),
{
    let rows = row_texts(read);
    if read.len() == 0 {
        assert(table.dom() =~= Set::<u64>::empty()) by {
            assert forall|id: u64| !table.contains_key(id) by {
                if table.contains_key(id) {
                    let i = choose|i: int| 0 <= i < rows.len() && rows[i].0 == id;
                }
            }
        }
        assert(table =~= Map::<u64, Seq<char>>::empty());
    } else {
        let prefix = read.drop_last();
        let last = rows[rows.len() - 1];
        let rest = table.remove(last.0);
        assert(row_texts(prefix) =~= rows.drop_last());
        assert(lists_in_order(row_texts(prefix), rest)) by {
            let short = row_texts(prefix);
            assert forall|i: int| 0 <= i < short.len() implies rest.contains_key(#[trigger] short[i].0)
                && rest[short[i].0] == short[i].1 by {
                assert(short[i] == rows[i]);
                assert(rows[i].0 != rows[rows.len() - 1].0);
            }
            assert forall|id: u64| #[trigger] rest.contains_key(id) implies exists|i: int|
                0 <= i < short.len() && short[i].0 == id by {
                assert(table.contains_key(id));
                let i = choose|i: int| 0 <= i < rows.len() && rows[i].0 == id;
                assert(i != rows.len() - 1);
                assert(short[i] == rows[i]);
            }
            assert forall|i: int, j: int| 0 <= i < j < short.len() implies short[i].0 != short[j].0
                && text_le(lowercase(short[i].1), lowercase(short[j].1)) by {
                assert(short[i] == rows[i]);
                assert(short[j] == rows[j]);
            }
        }
        lemma_rows_map_lists(prefix, rest);
        assert(last == (read.last().0, read.last().1@));
        assert(table.contains_key(rows[rows.len() - 1].0));
        assert(rows_map(read) =~= table);
    }
}

/// A file written for a table of writable rows, read back as `rows_of` reads it and loaded as
/// [`Results::loaded`] loads each file, gives the same table: what `write` writes, `load`
/// loads back. A row is writable when its id has bit 63 clear and its name holds no line feed
/// and does not end in white space.
pub proof fn law_written_file_loads_back(
    text: Seq<char>,
    table: Map<u64, Seq<char>>,
    read: Seq<(u64, String)>,
)
    requires
        file_lists(text, table),
        forall|id: u64| #[trigger] table.contains_key(id) ==> row_writable(id, table[id]),
        row_texts(read) == rows_of_lines(lines(text)),
    ensures
        rows_map(read) == table,
{
    let rows = choose|rows: Seq<(u64, Seq<char>)>| lists_in_order(rows, table) && text == rows_text(rows);
    assert forall|i: int| 0 <= i < rows.len() implies row_writable(#[trigger] rows[i].0, rows[i].1) by {
        assert(table.contains_key(rows[i].0));
    }
    law_rows_read_back(rows);
    lemma_rows_map_lists(read, table);
}

/// How many rows the first `n` files hold between them.
pub open spec fn file_rows(files: Seq<(String, Vec<(u64, String)>)>, n: int) -> int
    decreases n,
{
    if n <= 0 {
        0
    } else {
        file_rows(files, n - 1) + files[n - 1].1@.len()
    }
}

/// What loading the first `n` files gives: each file's rows merged into its type's, a later row
/// for an id replacing an earlier one.
pub open spec fn loaded_spec(
    files: Seq<(String, Vec<(u64, String)>)>,
    n: int,
) -> Map<Seq<char>, Map<u64, Seq<char>>>
    decreases n,
{
    if n <= 0 {
        Map::empty()
    } else {
        let held = loaded_spec(files, n - 1);
        let kind = files[n - 1].0@;
        let under = if held.contains_key(kind) {
            held[kind]
        } else {
            Map::empty()
        };
        held.insert(kind, under.union_prefer_right(rows_map(files[n - 1].1@)))
    }
}

/// The first `a` files hold no more rows than the first `b`.
proof fn lemma_file_rows_prefix(files: Seq<(String, Vec<(u64, String)>)>, a: int, b: int)
    requires
        0 <= a <= b <= files.len(),
    ensures
        file_rows(files, a) <= file_rows(files, b),
    decreases b - a,
{
    if a < b {
        lemma_file_rows_prefix(files, a, b - 1);
    }
}

/// A table's ids, in row order, are each id it holds, once.
proof fn lemma_table_order(table: &Table)
    requires
        table.wf(),
    ensures
        table.rows@.map_values(|row: (u64, String)| row.0).no_duplicates(),
        table.rows@.map_values(|row: (u64, String)| row.0).to_set() == table.view().dom(),
{
    let ids = table.rows@.map_values(|row: (u64, String)| row.0);
    assert forall|i: int, j: int| 0 <= i < ids.len() && 0 <= j < ids.len() && i != j implies ids[i]
        != ids[j] by {
        assert(table.at@[table.rows@[i].0] == i);
        assert(table.at@[table.rows@[j].0] == j);
    }
    assert forall|id: u64| #[trigger] table.view().dom().contains(id) implies ids.to_set().contains(id) by {
        let p = table.at@[id] as int;
        assert(ids[p] == id);
    }
    assert forall|id: u64| #[trigger] ids.to_set().contains(id) implies table.view().dom().contains(id) by {
        let p = choose|p: int| 0 <= p < ids.len() && ids[p] == id;
        assert(table.rows@[p].0 == id);
    }
    assert(ids.to_set() =~= table.view().dom());
}

impl Default for Results {
    fn default() -> (results: Self)
        ensures
            results.wf(),
            results.held() == Map::<Seq<char>, Map<u64, Seq<char>>>::empty(),
            results.fresh() == Map::<Seq<char>, Map<u64, Seq<char>>>::empty(),
            results.size() == 0,
            results.fresh_size() == 0,
            !results.keeps(),
    {
        Results::new()
    }
}

/// No running total of rows is negative.
proof fn lemma_rows_in_nonneg(tables: Seq<Table>, n: int)
    ensures
        rows_in(tables, n) >= 0,
    decreases n,
{
    if n > 0 {
        lemma_rows_in_nonneg(tables, n - 1);
    }
}

/// The first `a` tables hold no more rows than the first `b`.
proof fn lemma_rows_in_prefix(tables: Seq<Table>, a: int, b: int)
    requires
        0 <= a <= b <= tables.len(),
    ensures
        rows_in(tables, a) <= rows_in(tables, b),
    decreases b - a,
{
    if a < b {
        lemma_rows_in_prefix(tables, a, b - 1);
    }
}


} // verus!
