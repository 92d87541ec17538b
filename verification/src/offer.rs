//! Turning what `start` already decided into something a first-timer can act on.
//!
//! What is offered is the short list `start` prints, numbered, with nothing preselected. The
//! choice a contributor makes is the one they would have made by reading; what is removed is
//! having to retype it. Nothing is asked unless a person is there to answer, and no answer is a
//! choice of nothing.

use vstd::prelude::*;

use crate::text::{
    chars_of, count_number, decimal_spec, decimal_value, is_space,
    lemma_decimal_reads_back, lemma_trim_padding, parse_count, string_from, trim_bounds, trimmed,
};

verus! {

/// One thing `start` worked out is worth doing here, kept whole so it can be run exactly as
/// shown.
pub struct Offer {
    /// The command line, as printed. What runs and what was shown must be the same string.
    pub command: String,
    /// The first line of why, for the menu. The full reasoning is already above it on screen.
    pub gist: String,
}

/// The offer an answer picks, as its place in the list: the answer trimmed and read as a
/// number, when that number is on the list, which counts from one.
pub open spec fn picked_spec(answer: Seq<char>, offers: nat) -> Option<nat> {
    match count_number(trimmed(answer)) {
        Some(n) => if 1 <= n <= offers {
            Some((n - 1) as nat)
        } else {
            None
        },
        None => None,
    }
}

/// Typing an offer's number, with any white space around it, picks that offer, the list
/// counting from one; a number that is not on the list picks nothing.
pub proof fn law_a_number_picks_its_offer(
    answer: Seq<char>,
    pre: Seq<char>,
    n: nat,
    post: Seq<char>,
    offers: nat,
)
    requires
        answer == pre + decimal_spec(n) + post,
        forall|i: int| 0 <= i < pre.len() ==> is_space(#[trigger] pre[i]),
        forall|i: int| 0 <= i < post.len() ==> is_space(#[trigger] post[i]),
        n <= usize::MAX,
    ensures
        1 <= n <= offers ==> picked_spec(answer, offers) == Some((n - 1) as nat),
        !(1 <= n <= offers) ==> picked_spec(answer, offers) is None,
{
    let d = decimal_spec(n);
    lemma_decimal_reads_back(n);
    assert(decimal_value(d[0]) >= 0);
    assert(decimal_value(d[d.len() - 1]) >= 0);
    lemma_trim_padding(pre, d, post);
    assert(count_number(d) == Some(n as usize));
}

/// Which of `offers` choices an answer picks.
///
/// Anything but a number on the list picks nothing, including an empty answer: a contributor
/// who did not read the reasoning should end up having run nothing, not whatever was first.
pub fn picked(answer: &str, offers: usize) -> (out: Option<usize>)
    ensures
        match out {
            Some(i) => picked_spec(answer@, offers as nat) == Some(i as nat),
            None => picked_spec(answer@, offers as nat) is None,
        },
{
    let chars = chars_of(answer);
    let (a, b) = trim_bounds(&chars, 0, chars.len());
    assert(chars@.subrange(0, chars@.len() as int) =~= chars@);
    let text = string_from(&chars, a, b);
    match parse_count(text.as_str()) {
        Some(n) => {
            if 1 <= n && n <= offers {
                Some(n - 1)
            } else {
                None
            }
        },
        None => None,
    }
}

} // verus!
