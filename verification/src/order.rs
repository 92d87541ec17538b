//! Putting texts in order: character by character, by code point, which for UTF-8 text is the
//! order `str`'s own comparison gives.

use std::cmp::Ordering;

use vstd::prelude::*;

verus! {

/// Whether `a` comes before `b`, or is the same: compared character by character, a text that
/// runs out first coming first.
pub open spec fn text_le(a: Seq<char>, b: Seq<char>) -> bool
    decreases a.len(),
{
    if a.len() == 0 {
        true
    } else if b.len() == 0 {
        false
    } else if a[0] != b[0] {
        a[0] < b[0]
    } else {
        text_le(a.drop_first(), b.drop_first())
    }
}

/// Whether `a` comes strictly before `b`.
pub open spec fn text_before(a: Seq<char>, b: Seq<char>) -> bool {
    text_le(a, b) && a != b
}

/// A list of texts in order.
pub open spec fn texts_in_order(list: Seq<Seq<char>>) -> bool {
    forall|i: int, j: int| 0 <= i < j < list.len() ==> text_le(list[i], list[j])
}

/// Whether `a` comes before or with `b`, and whether they are the same.
pub fn compare_texts(a: &str, b: &str) -> (out: (bool, bool))
    ensures
        out.0 == text_le(a@, b@),
        out.1 == (a@ == b@),
{
    let left = crate::text::chars_of(a);
    let right = crate::text::chars_of(b);
    let mut i: usize = 0;
    assert(a@.skip(0) =~= a@);
    assert(b@.skip(0) =~= b@);
    while i < left.len() && i < right.len()
        invariant
            i <= left@.len(),
            i <= right@.len(),
            left@ == a@,
            right@ == b@,
            forall|k: int| 0 <= k < i ==> left@[k] == right@[k],
            text_le(a@, b@) == text_le(a@.skip(i as int), b@.skip(i as int)),
            (a@ == b@) == (a@.skip(i as int) == b@.skip(i as int)),
        decreases left@.len() - i,
    {
        if left[i] != right[i] {
            assert(a@.skip(i as int)[0] != b@.skip(i as int)[0]);
            return (left[i] < right[i], false);
        }
        assert(a@.skip(i as int).drop_first() =~= a@.skip(i + 1));
        assert(b@.skip(i as int).drop_first() =~= b@.skip(i + 1));
        assert((a@.skip(i as int) == b@.skip(i as int)) == (a@.skip(i + 1) == b@.skip(i + 1))) by {
            if a@.skip(i + 1) == b@.skip(i + 1) {
                assert forall|k: int| 0 <= k < a@.skip(i as int).len() implies a@.skip(i as int)[k]
                    == b@.skip(i as int)[k] by {
                    if k > 0 {
                        assert(a@.skip(i as int)[k] == a@.skip(i + 1)[k - 1]);
                        assert(b@.skip(i as int)[k] == b@.skip(i + 1)[k - 1]);
                    }
                }
                assert(a@.skip(i as int) =~= b@.skip(i as int));
            }
        }
        i = i + 1;
    }
    if left.len() == right.len() {
        assert(a@ =~= b@);
        (true, true)
    } else if i == left.len() {
        assert(a@.skip(i as int).len() == 0);
        (true, false)
    } else {
        assert(b@.skip(i as int).len() == 0);
        (false, false)
    }
}

/// The order of two texts.
pub fn order_texts(a: &str, b: &str) -> (out: Ordering)
    ensures
        (out is Less) <==> (text_le(a@, b@) && a@ != b@),
        (out is Equal) <==> a@ == b@,
        (out is Greater) <==> !text_le(a@, b@),
{
    let (before, same) = compare_texts(a, b);
    proof {
        lemma_text_le_reflexive(a@);
    }
    if same {
        Ordering::Equal
    } else if before {
        Ordering::Less
    } else {
        Ordering::Greater
    }
}

/// Every text comes with itself.
pub proof fn lemma_text_le_reflexive(a: Seq<char>)
    ensures
        text_le(a, a),
    decreases a.len(),
{
    if a.len() > 0 {
        lemma_text_le_reflexive(a.drop_first());
    }
}

/// Texts that come with each other both ways are the same.
pub proof fn lemma_text_le_antisymmetric(a: Seq<char>, b: Seq<char>)
    requires
        text_le(a, b),
        text_le(b, a),
    ensures
        a == b,
    decreases a.len(),
{
    if a.len() > 0 && b.len() > 0 {
        lemma_text_le_antisymmetric(a.drop_first(), b.drop_first());
        assert(a =~= seq![a[0]] + a.drop_first());
        assert(b =~= seq![b[0]] + b.drop_first());
    } else {
        assert(a =~= b);
    }
}

/// Coming before or with is passed along.
pub proof fn lemma_text_le_transitive(a: Seq<char>, b: Seq<char>, c: Seq<char>)
    requires
        text_le(a, b),
        text_le(b, c),
    ensures
        text_le(a, c),
    decreases a.len(),
{
    if a.len() > 0 && b.len() > 0 && c.len() > 0 && a[0] == b[0] && b[0] == c[0] {
        lemma_text_le_transitive(a.drop_first(), b.drop_first(), c.drop_first());
    }
}

/// Whether `text_le` is a total order: every pair compares, one way or both.
pub proof fn lemma_text_le_total(a: Seq<char>, b: Seq<char>)
    ensures
        text_le(a, b) || text_le(b, a),
    decreases a.len(),
{
    if a.len() > 0 && b.len() > 0 && a[0] == b[0] {
        lemma_text_le_total(a.drop_first(), b.drop_first());
    }
}

/// Sorts texts into order.
///
/// Calls `slice::sort_by` with [`order_texts`] as the comparison, which std documents as
/// sorting the slice by that comparison: the same texts come out, in order.
#[verifier::external_body]
pub(crate) fn sort_texts(list: &mut Vec<String>)
    ensures
        final(list)@.to_multiset() == old(list)@.to_multiset(),
        forall|i: int, j: int|
            0 <= i < j < final(list)@.len() ==> text_le(final(list)@[i]@, final(list)@[j]@),
{
    list.sort_by(|a, b| order_texts(a, b))
}

/// Sorts rows into the order of their keys.
///
/// Calls `slice::sort_by` with [`order_texts`] on each row's key as the comparison, which std
/// documents as sorting the slice by that comparison: the same rows come out, in order of key.
#[verifier::external_body]
pub(crate) fn sort_by_key_text(rows: &mut Vec<(String, u64, String)>)
    ensures
        final(rows)@.to_multiset() == old(rows)@.to_multiset(),
        forall|i: int, j: int|
            0 <= i < j < final(rows)@.len() ==> text_le(final(rows)@[i].0@, final(rows)@[j].0@),
{
    rows.sort_by(|a, b| order_texts(&a.0, &b.0))
}

} // verus!
