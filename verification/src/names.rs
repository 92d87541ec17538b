//! What the published tables say: the endings their names carry, and whether a set of their
//! hashes looks like the whole of them.

use std::collections::HashSet;

use vstd::prelude::*;

use crate::order::{sort_texts, text_le, texts_in_order};
use crate::text::{chars_of, same_text, string_from, texts};

verus! {

broadcast use vstd::std_specs::hash::group_hash_axioms;

/// A text lowered the way `str::to_lowercase` lowers it, by Unicode's case mapping.
pub uninterp spec fn lowercase(text: Seq<char>) -> Seq<char>;

/// Lowers a text.
///
/// Calls `str::to_lowercase`. Unicode's lowercase mapping takes pages to state, so its result is
/// named rather than written out: it depends on the text alone.
#[verifier::external_body]
pub(crate) fn lowercase_of(text: &str) -> (out: String)
    ensures
        out@ == lowercase(text@),
{
    text.to_lowercase()
}

/// Whether a set of table hashes is big enough to be the real thing.
///
/// Without the tables every loaded asset looks unnamed, and a search would report a few million
/// already published names as though they were finds. A short read means the tables moved, not
/// that the game got bigger.
pub fn tables_look_complete(known: &HashSet<u64>) -> (out: bool)
    ensures
        out == (known@.len() >= 1_000_000),
{
    known.len() >= 1_000_000
}

/// How many underscores a text holds.
pub open spec fn underscores(text: Seq<char>) -> nat
    decreases text.len(),
{
    if text.len() == 0 {
        0
    } else {
        underscores(text.drop_last()) + if text.last() == '_' {
            1nat
        } else {
            0nat
        }
    }
}

/// Whether `ending` is one of the endings `name` carries: everything from one of its last three
/// underscores on, where that underscore is not the last character.
pub open spec fn is_ending_of(name: Seq<char>, ending: Seq<char>) -> bool {
    exists|at: int|
        #![trigger name.subrange(at, name.len() as int)]
        0 <= at && at + 1 < name.len() && name[at] == '_' && underscores(
            name.subrange(at + 1, name.len() as int),
        ) < 3 && ending == name.subrange(at, name.len() as int)
}

/// Underscores in two texts put together are those of each.
proof fn lemma_underscores_add(a: Seq<char>, b: Seq<char>)
    ensures
        underscores(a + b) == underscores(a) + underscores(b),
    decreases b.len(),
{
    if b.len() == 0 {
        assert(a + b =~= a);
    } else {
        assert((a + b).drop_last() =~= a + b.drop_last());
        assert((a + b).last() == b.last());
        lemma_underscores_add(a, b.drop_last());
    }
}

/// A text with no underscore in it has none to count.
proof fn lemma_no_underscores(a: Seq<char>)
    requires
        forall|i: int| 0 <= i < a.len() ==> a[i] != '_',
    ensures
        underscores(a) == 0,
    decreases a.len(),
{
    if a.len() > 0 {
        lemma_no_underscores(a.drop_last());
    }
}

/// What follows a name's underscore, when it holds fewer than three more, makes an ending with
/// that underscore.
proof fn lemma_ending_after(p: Seq<char>, t: Seq<char>)
    requires
        t.len() > 0,
        underscores(t) < 3,
    ensures
        is_ending_of(p + seq!['_'] + t, seq!['_'] + t),
{
    let name = p + seq!['_'] + t;
    assert(name.subrange(p.len() + 1int, name.len() as int) =~= t);
    assert(name.subrange(p.len() as int, name.len() as int) =~= seq!['_'] + t);
    assert(name[p.len() as int] == '_');
}

/// One underscore is one.
proof fn lemma_one_underscore()
    ensures
        underscores(seq!['_']) == 1,
{
    let u = seq!['_'];
    assert(u.drop_last() =~= Seq::<char>::empty());
    assert(underscores(Seq::<char>::empty()) == 0);
    assert(u.last() == '_');
}

/// The last one, two and three underscore-separated segments of a name, each with the underscore
/// before it, are endings of that name, whatever comes before them (`a`, `b` and `c` being
/// segments with no underscore in them, the last not empty).
pub proof fn law_trailing_segments_are_endings(p: Seq<char>, a: Seq<char>, b: Seq<char>, c: Seq<char>)
    requires
        forall|i: int| 0 <= i < a.len() ==> a[i] != '_',
        forall|i: int| 0 <= i < b.len() ==> b[i] != '_',
        forall|i: int| 0 <= i < c.len() ==> c[i] != '_',
        c.len() > 0,
    ensures
        is_ending_of(p + seq!['_'] + c, seq!['_'] + c),
        is_ending_of(p + seq!['_'] + (b + seq!['_'] + c), seq!['_'] + (b + seq!['_'] + c)),
        is_ending_of(
            p + seq!['_'] + (a + seq!['_'] + b + seq!['_'] + c),
            seq!['_'] + (a + seq!['_'] + b + seq!['_'] + c),
        ),
{
    let u = seq!['_'];
    lemma_no_underscores(a);
    lemma_no_underscores(b);
    lemma_no_underscores(c);
    lemma_one_underscore();
    lemma_underscores_add(b, u);
    lemma_underscores_add(b + u, c);
    lemma_underscores_add(a, u);
    lemma_underscores_add(a + u, b);
    lemma_underscores_add(a + u + b, u);
    lemma_underscores_add(a + u + b + u, c);
    lemma_ending_after(p, c);
    lemma_ending_after(p, b + u + c);
    lemma_ending_after(p, a + u + b + u + c);
}

/// Counting underscores from the back: one more each time an underscore is passed.
proof fn lemma_underscores_step(text: Seq<char>, at: int)
    requires
        0 <= at < text.len(),
    ensures
        underscores(text.subrange(at, text.len() as int)) == underscores(
            text.subrange(at + 1, text.len() as int),
        ) + if text[at] == '_' {
            1nat
        } else {
            0nat
        },
    decreases text.len() - at,
{
    if at + 1 < text.len() {
        lemma_underscores_step(text.drop_last(), at);
        assert(text.subrange(at, text.len() as int).drop_last() =~= text.drop_last().subrange(
            at,
            text.drop_last().len() as int,
        ));
        assert(text.subrange(at + 1, text.len() as int).drop_last() =~= text.drop_last().subrange(
            at + 1,
            text.drop_last().len() as int,
        ));
    } else {
        assert(text.subrange(at + 1, text.len() as int) =~= Seq::<char>::empty());
        assert(text.subrange(at, text.len() as int).drop_last() =~= Seq::<char>::empty());
    }
}

/// The endings one lowered name carries, pushed onto `into`.
fn endings_of_one(name: &Vec<char>, into: &mut Vec<String>)
    ensures
        forall|e: Seq<char>|
            #[trigger] texts(final(into)@).contains(e) <==> texts(old(into)@).contains(e) || is_ending_of(name@, e),
{
    let ghost before = texts(into@);
    let n = name.len();
    let mut seen: usize = 0;
    let mut at = n;
    assert(name@.subrange(n as int, n as int) =~= Seq::<char>::empty());
    while at > 0 && seen < 3
        invariant
            at <= n == name@.len(),
            seen <= 3,
            seen == underscores(name@.subrange(at as int, n as int)),
            forall|e: Seq<char>|
                #[trigger] texts(into@).contains(e) <==> before.contains(e) || exists|
                    b: int,
                |
                    #![trigger name@.subrange(b, n as int)]
                    at <= b && b + 1 < n && name@[b] == '_' && underscores(
                        name@.subrange(b + 1, n as int),
                    ) < 3 && e == name@.subrange(b, n as int),
        decreases at,
    {
        let here = at - 1;
        proof {
            lemma_underscores_step(name@, here as int);
        }
        if name[here] == '_' {
            if here + 1 < n {
                let ending = string_from(name, here, n);
                let ghost prior = texts(into@);
                into.push(ending);
                proof {
                    assert(texts(into@) =~= prior.push(ending@));
                    assert forall|e: Seq<char>| #[trigger] texts(into@).contains(e)
                        <==> before.contains(e) || exists|b: int|
                        #![trigger name@.subrange(b, n as int)]
                        here <= b && b + 1 < n && name@[b] == '_' && underscores(
                            name@.subrange(b + 1, n as int),
                        ) < 3 && e == name@.subrange(b, n as int) by {
                        if e == ending@ {
                            assert(texts(into@)[prior.len() as int] == e);
                        }
                        if prior.contains(e) {
                            let x = choose|x: int| 0 <= x < prior.len() && prior[x] == e;
                            assert(texts(into@)[x] == e);
                        }
                        if texts(into@).contains(e) && !prior.contains(e) {
                            let x = choose|x: int|
                                0 <= x < texts(into@).len() && texts(into@)[x] == e;
                            if x < prior.len() {
                                assert(prior[x] == e);
                            }
                        }
                    }
                }
            }
            seen = seen + 1;
        }
        at = here;
    }
    proof {
        assert forall|e: Seq<char>| #[trigger] texts(into@).contains(e)
            <==> before.contains(e) || is_ending_of(name@, e) by {
            if is_ending_of(name@, e) && !before.contains(e) {
                let b = choose|b: int|
                    #![trigger name@.subrange(b, name@.len() as int)]
                    0 <= b && b + 1 < name@.len() && name@[b] == '_' && underscores(
                        name@.subrange(b + 1, name@.len() as int),
                    ) < 3 && e == name@.subrange(b, name@.len() as int);
                if b < at {
                    // Passing `b`'s underscore and the three after `at` would make four.
                    lemma_underscores_between(name@, b, at as int);
                }
            }
        }
    }
}

/// Counting from further back never finds fewer underscores.
proof fn lemma_underscores_between(text: Seq<char>, b: int, at: int)
    requires
        0 <= b < at <= text.len(),
        text[b] == '_',
    ensures
        underscores(text.subrange(b + 1, text.len() as int)) >= underscores(
            text.subrange(at, text.len() as int),
        ),
    decreases at - b,
{
    if b + 1 < at {
        lemma_underscores_step(text, at - 1);
        lemma_underscores_between(text, b, at - 1);
    }
}

/// Every ending the names carry, once each: one, two and three trailing underscore-separated
/// segments of each name, lowered.
///
/// No threshold, deliberately. Where a search is narrow enough to afford the whole set, a
/// threshold would drop exactly the unusual endings that a published table cannot already name.
pub fn endings_of(names: &[String]) -> (out: Vec<String>)
    ensures
        texts(out@).no_duplicates(),
        forall|e: Seq<char>|
            #[trigger] texts(out@).contains(e) <==> exists|i: int|
                0 <= i < names@.len() && is_ending_of(lowercase(#[trigger] names@[i]@), e),
{
    let mut all: Vec<String> = Vec::new();
    let mut i: usize = 0;
    while i < names.len()
        invariant
            i <= names@.len(),
            forall|e: Seq<char>|
                #[trigger] texts(all@).contains(e) <==> exists|j: int|
                    0 <= j < i && is_ending_of(lowercase(#[trigger] names@[j]@), e),
        decreases names@.len() - i,
    {
        let lowered = lowercase_of(names[i].as_str());
        let chars = chars_of(lowered.as_str());
        endings_of_one(&chars, &mut all);
        i = i + 1;
    }
    let ghost gathered = all@;
    sort_texts(&mut all);
    proof {
        broadcast use vstd::seq_lib::group_to_multiset_ensures;

        assert forall|e: Seq<char>| #[trigger] texts(all@).contains(e)
            <==> texts(gathered).contains(e) by {
            if texts(all@).contains(e) {
                let p = choose|p: int| 0 <= p < all@.len() && texts(all@)[p] == e;
                assert(all@.contains(all@[p]));
                assert(all@.to_multiset().count(all@[p]) > 0);
                assert(gathered.contains(all@[p]));
                let q = choose|q: int| 0 <= q < gathered.len() && gathered[q] == all@[p];
                assert(texts(gathered)[q] == e);
            }
            if texts(gathered).contains(e) {
                let q = choose|q: int|
                    0 <= q < gathered.len() && texts(gathered)[q] == e;
                assert(gathered.contains(gathered[q]));
                assert(gathered.to_multiset().count(gathered[q]) > 0);
                assert(all@.contains(gathered[q]));
                let p = choose|p: int| 0 <= p < all@.len() && all@[p] == gathered[q];
                assert(texts(all@)[p] == e);
            }
        }
    }
    deduplicated_texts(&all)
}

/// The texts of a list, once each, from a list already in order.
fn deduplicated_texts(list: &Vec<String>) -> (out: Vec<String>)
    requires
        forall|i: int, j: int| 0 <= i < j < list@.len() ==> text_le(list@[i]@, list@[j]@),
    ensures
        texts(out@).no_duplicates(),
        forall|e: Seq<char>|
            #[trigger] texts(out@).contains(e) <==> texts(list@).contains(e),
{
    let mut out: Vec<String> = Vec::new();
    let mut i: usize = 0;
    while i < list.len()
        invariant
            i <= list@.len(),
            forall|a: int, b: int| 0 <= a < b < list@.len() ==> text_le(list@[a]@, list@[b]@),
            forall|a: int, b: int|
                #![trigger out@[a], out@[b]]
                0 <= a < b < out@.len() ==> text_le(out@[a]@, out@[b]@) && out@[a]@ != out@[b]@,
            i == 0 <==> out@.len() == 0,
            i > 0 ==> out@.last()@ == list@[i - 1]@,
            forall|a: int|
                0 <= a < out@.len() ==> exists|p: int| 0 <= p < i && #[trigger] list@[p]@ == #[trigger] out@[a]@,
            forall|e: Seq<char>|
                #[trigger] texts(out@).contains(e) <==> texts(list@.take(i as int)).contains(e),
        decreases list@.len() - i,
    {
        let ghost prior = out@;
        if out.len() == 0 || !same_text(out[out.len() - 1].as_str(), list[i].as_str()) {
            proof {
                assert forall|a: int| 0 <= a < prior.len() implies text_le(prior[a]@, list@[i as int]@)
                    && prior[a]@ != list@[i as int]@ by {
                    let p = choose|p: int| 0 <= p < i && #[trigger] list@[p]@ == prior[a]@;
                    assert(text_le(list@[p]@, list@[i as int]@));
                    if prior[a]@ == list@[i as int]@ {
                        let last = prior.len() - 1;
                        if a < last {
                            assert(text_le(prior[a]@, prior[last]@));
                            assert(text_le(prior[last]@, list@[i as int]@)) by {
                                assert(prior[last]@ == list@[i - 1]@);
                                assert(text_le(list@[i - 1]@, list@[i as int]@));
                            }
                            crate::order::lemma_text_le_antisymmetric(prior[a]@, prior[last]@);
                        }
                    }
                }
            }
            out.push(list[i].clone());
        }
        proof {
            assert(texts(list@.take(i + 1)) =~= texts(list@.take(i as int)).push(list@[i as int]@));
            assert forall|e: Seq<char>| #[trigger] texts(out@).contains(e)
                <==> texts(list@.take(i + 1)).contains(e) by {
                let later = texts(list@.take(i + 1));
                let earlier = texts(list@.take(i as int));
                if texts(out@).contains(e) {
                    let x = choose|x: int| 0 <= x < out@.len() && texts(out@)[x] == e;
                    if x < prior.len() {
                        assert(texts(prior)[x] == e);
                        assert(texts(prior).contains(e));
                        assert(earlier.contains(e));
                        let y = choose|y: int| 0 <= y < earlier.len() && earlier[y] == e;
                        assert(later[y] == e);
                    } else {
                        assert(out@[x] == list@[i as int]);
                        assert(later[i as int] == e);
                    }
                }
                if later.contains(e) {
                    let y = choose|y: int| 0 <= y < later.len() && later[y] == e;
                    if y < i {
                        assert(earlier[y] == e);
                        assert(texts(prior).contains(e));
                        let x = choose|x: int| 0 <= x < prior.len() && texts(prior)[x] == e;
                        assert(texts(out@)[x] == e);
                    } else {
                        assert(e == list@[i as int]@);
                        assert(out@.last()@ == e);
                        assert(texts(out@)[out@.len() - 1] == e);
                    }
                }
            }
        }
        i = i + 1;
    }
    proof {
        assert(list@.take(list@.len() as int) =~= list@);
        assert forall|a: int, b: int|
            0 <= a < texts(out@).len() && 0 <= b < texts(out@).len() && a != b implies texts(out@)[a] != texts(out@)[b] by {
            if a < b {
                assert(out@[a]@ != out@[b]@);
            } else {
                assert(out@[b]@ != out@[a]@);
            }
        }
    }
    out
}

} // verus!
