//! Numbers written out as text, the way the rest of the crate prints them.

use vstd::prelude::*;
use vstd::std_specs::iter::IteratorSpec;

verus! {

/// The texts of a list of strings.
pub open spec fn texts(list: Seq<String>) -> Seq<Seq<char>> {
    list.map_values(|s: String| s@)
}

/// The character for a decimal digit.
pub open spec fn digit_char(d: nat) -> char {
    ((48 + d) as u8) as char
}

/// A number in decimal, with no leading zeros.
pub open spec fn decimal_spec(n: nat) -> Seq<char>
    decreases n,
{
    if n < 10 {
        seq![digit_char(n)]
    } else {
        decimal_spec(n / 10).push(digit_char(n % 10))
    }
}

/// A number in decimal, padded with leading zeros to at least `width` characters.
pub open spec fn padded_spec(n: nat, width: nat) -> Seq<char> {
    let digits = decimal_spec(n);
    if digits.len() >= width {
        digits
    } else {
        Seq::new((width - digits.len()) as nat, |i: int| '0') + digits
    }
}

/// Appends a character to a string.
#[verifier::external_body]
pub(crate) fn push_char(text: &mut String, c: char)
    ensures
        final(text)@ == old(text)@.push(c),
{
    text.push(c);
}

/// The character for a decimal digit.
pub fn digit(d: u64) -> (c: char)
    requires
        d < 10,
    ensures
        c == digit_char(d as nat),
{
    ((48u8 + d as u8) as char)
}

/// A number in decimal.
pub fn decimal(n: u64) -> (out: String)
    ensures
        out@ == decimal_spec(n as nat),
    decreases n,
{
    if n < 10 {
        let mut out = String::new();
        push_char(&mut out, digit(n));
        assert(out@ =~= decimal_spec(n as nat));
        out
    } else {
        let mut out = decimal(n / 10);
        push_char(&mut out, digit(n % 10));
        out
    }
}

/// A number in decimal, padded with zeros to `width` characters.
pub fn padded(n: u64, width: usize) -> (out: String)
    ensures
        out@ == padded_spec(n as nat, width as nat),
{
    let digits = decimal(n);
    let length = digits.as_str().unicode_len();
    if length >= width {
        return digits;
    }
    let mut out = String::new();
    let mut i: usize = 0;
    while i < width - length
        invariant
            length < width,
            length == decimal_spec(n as nat).len(),
            i <= width - length,
            out@ == Seq::new(i as nat, |k: int| '0'),
        decreases width - length - i,
    {
        push_char(&mut out, '0');
        assert(out@ =~= Seq::new((i + 1) as nat, |k: int| '0'));
        i = i + 1;
    }
    out.append(digits.as_str());
    out
}

/// Whether a character is white space, as Unicode's White_Space property has it: what `str::trim`
/// takes off either end of a text.
pub open spec fn is_space(c: char) -> bool {
    let n = c as u32;
    ||| 0x09 <= n <= 0x0D
    ||| n == 0x20
    ||| n == 0x85
    ||| n == 0xA0
    ||| n == 0x1680
    ||| 0x2000 <= n <= 0x200A
    ||| n == 0x2028
    ||| n == 0x2029
    ||| n == 0x202F
    ||| n == 0x205F
    ||| n == 0x3000
}

/// A text with its leading white space taken off.
pub open spec fn trim_start_spec(text: Seq<char>) -> Seq<char>
    decreases text.len(),
{
    if text.len() > 0 && is_space(text[0]) {
        trim_start_spec(text.drop_first())
    } else {
        text
    }
}

/// A text with its trailing white space taken off.
pub open spec fn trim_end_spec(text: Seq<char>) -> Seq<char>
    decreases text.len(),
{
    if text.len() > 0 && is_space(text.last()) {
        trim_end_spec(text.drop_last())
    } else {
        text
    }
}

/// A text with the white space at both ends taken off.
pub open spec fn trimmed(text: Seq<char>) -> Seq<char> {
    trim_end_spec(trim_start_spec(text))
}

/// Leading white space is all that trimming the front takes off.
proof fn lemma_trim_start_padding(pre: Seq<char>, rest: Seq<char>)
    requires
        forall|i: int| 0 <= i < pre.len() ==> is_space(#[trigger] pre[i]),
        rest.len() > 0,
        !is_space(rest[0]),
    ensures
        trim_start_spec(pre + rest) == rest,
    decreases pre.len(),
{
    if pre.len() == 0 {
        assert(pre + rest =~= rest);
    } else {
        assert((pre + rest)[0] == pre[0]);
        assert((pre + rest).drop_first() =~= pre.drop_first() + rest);
        assert forall|i: int| 0 <= i < pre.drop_first().len() implies is_space(
            #[trigger] pre.drop_first()[i],
        ) by {
            assert(pre.drop_first()[i] == pre[i + 1]);
        }
        lemma_trim_start_padding(pre.drop_first(), rest);
    }
}

/// Trailing white space is all that trimming the end takes off.
proof fn lemma_trim_end_padding(rest: Seq<char>, post: Seq<char>)
    requires
        forall|i: int| 0 <= i < post.len() ==> is_space(#[trigger] post[i]),
        rest.len() > 0,
        !is_space(rest.last()),
    ensures
        trim_end_spec(rest + post) == rest,
    decreases post.len(),
{
    if post.len() == 0 {
        assert(rest + post =~= rest);
    } else {
        assert((rest + post).last() == post.last());
        assert((rest + post).drop_last() =~= rest + post.drop_last());
        assert forall|i: int| 0 <= i < post.drop_last().len() implies is_space(
            #[trigger] post.drop_last()[i],
        ) by {
            assert(post.drop_last()[i] == post[i]);
        }
        lemma_trim_end_padding(rest, post.drop_last());
    }
}

/// Trimming nothing but white space leaves nothing.
pub proof fn lemma_trim_blank(text: Seq<char>)
    requires
        forall|i: int| 0 <= i < text.len() ==> is_space(#[trigger] text[i]),
    ensures
        trimmed(text) == Seq::<char>::empty(),
    decreases text.len(),
{
    if text.len() > 0 {
        assert forall|i: int| 0 <= i < text.drop_first().len() implies is_space(
            #[trigger] text.drop_first()[i],
        ) by {
            assert(text.drop_first()[i] == text[i + 1]);
        }
        lemma_trim_blank(text.drop_first());
        assert(trim_start_spec(text) == trim_start_spec(text.drop_first()));
    }
}

/// Trimming a word padded with white space on either side gives the word back, when the word
/// neither starts nor ends with white space.
pub proof fn lemma_trim_padding(pre: Seq<char>, word: Seq<char>, post: Seq<char>)
    requires
        forall|i: int| 0 <= i < pre.len() ==> is_space(#[trigger] pre[i]),
        forall|i: int| 0 <= i < post.len() ==> is_space(#[trigger] post[i]),
        word.len() > 0,
        !is_space(word[0]),
        !is_space(word.last()),
    ensures
        trimmed(pre + word + post) == word,
{
    assert(pre + word + post =~= pre + (word + post));
    assert((word + post)[0] == word[0]);
    lemma_trim_start_padding(pre, word + post);
    lemma_trim_end_padding(word, post);
}

/// Whether `c` is white space.
pub fn space(c: char) -> (out: bool)
    ensures
        out == is_space(c),
{
    let n = c as u32;
    (0x09 <= n && n <= 0x0D) || n == 0x20 || n == 0x85 || n == 0xA0 || n == 0x1680 || (0x2000
        <= n && n <= 0x200A) || n == 0x2028 || n == 0x2029 || n == 0x202F || n == 0x205F || n
        == 0x3000
}

/// The characters of a text, in order.
pub fn chars_of(text: &str) -> (out: Vec<char>)
    ensures
        out@ == text@,
{
    let mut out: Vec<char> = Vec::new();
    let chars = text.chars();
    let ghost all = chars.remaining();
    proof {
        broadcast use vstd::string::group_string_axioms;

        assert(all == text@);
    }
    for c in it: chars
        invariant
            all == it.seq(),
            out@ == it.seq().take(it.index() as int),
    {
        out.push(c);
    }
    assert(out@ =~= all);
    out
}

/// A text made of `chars[from..to]`.
pub fn string_from(chars: &Vec<char>, from: usize, to: usize) -> (out: String)
    requires
        from <= to <= chars@.len(),
    ensures
        out@ == chars@.subrange(from as int, to as int),
{
    let mut out = String::new();
    let mut i = from;
    while i < to
        invariant
            from <= i <= to <= chars@.len(),
            out@ == chars@.subrange(from as int, i as int),
        decreases to - i,
    {
        push_char(&mut out, chars[i]);
        assert(out@ =~= chars@.subrange(from as int, i + 1));
        i = i + 1;
    }
    out
}

/// Where the text inside `chars[from..to]` starts and ends once the white space at both ends is
/// taken off.
pub fn trim_bounds(chars: &Vec<char>, from: usize, to: usize) -> (out: (usize, usize))
    requires
        from <= to <= chars@.len(),
    ensures
        from <= out.0 <= out.1 <= to,
        chars@.subrange(out.0 as int, out.1 as int) == trimmed(chars@.subrange(from as int, to as int)),
{
    let ghost whole = chars@.subrange(from as int, to as int);
    let mut start = from;
    while start < to && space(chars[start])
        invariant
            from <= start <= to <= chars@.len(),
            trim_start_spec(whole) == trim_start_spec(chars@.subrange(start as int, to as int)),
        decreases to - start,
    {
        assert(chars@.subrange(start as int, to as int).drop_first() =~= chars@.subrange(
            start + 1,
            to as int,
        ));
        start = start + 1;
    }
    let ghost front = chars@.subrange(start as int, to as int);
    assert(trim_start_spec(whole) == front) by {
        if start < to {
            assert(front[0] == chars@[start as int]);
        }
    }
    let mut end = to;
    while end > start && space(chars[end - 1])
        invariant
            start <= end <= to <= chars@.len(),
            trim_end_spec(front) == trim_end_spec(chars@.subrange(start as int, end as int)),
        decreases end - start,
    {
        assert(chars@.subrange(start as int, end as int).drop_last() =~= chars@.subrange(
            start as int,
            end - 1,
        ));
        end = end - 1;
    }
    assert(trim_end_spec(chars@.subrange(start as int, end as int)) == chars@.subrange(
        start as int,
        end as int,
    )) by {
        if end > start {
            assert(chars@.subrange(start as int, end as int).last() == chars@[end - 1]);
        }
    }
    (start, end)
}

/// A text with its underscores taken out.
pub open spec fn flat(text: Seq<char>) -> Seq<char> {
    text.filter(|c: char| c != '_')
}

/// Whether `needle` appears in `text` starting at `at`.
pub open spec fn occurs_at(text: Seq<char>, needle: Seq<char>, at: int) -> bool {
    0 <= at && at + needle.len() <= text.len() && text.subrange(at, at + needle.len()) == needle
}

/// Whether `needle` appears anywhere in `text`.
pub open spec fn occurs(text: Seq<char>, needle: Seq<char>) -> bool {
    exists|at: int| #[trigger] occurs_at(text, needle, at)
}

/// Whether two lists of characters are the same.
fn same_chars(a: &Vec<char>, b: &Vec<char>) -> (out: bool)
    ensures
        out == (a@ == b@),
{
    if a.len() != b.len() {
        return false;
    }
    let mut i: usize = 0;
    while i < a.len()
        invariant
            i <= a@.len() == b@.len(),
            forall|k: int| 0 <= k < i ==> a@[k] == b@[k],
        decreases a@.len() - i,
    {
        if a[i] != b[i] {
            return false;
        }
        i = i + 1;
    }
    assert(a@ =~= b@);
    true
}

/// Whether two texts are the same.
pub fn same_text(a: &str, b: &str) -> (out: bool)
    ensures
        out == (a@ == b@),
{
    same_chars(&chars_of(a), &chars_of(b))
}

/// The characters of a text with its underscores taken out.
fn flattened(text: &str) -> (out: Vec<char>)
    ensures
        out@ == flat(text@),
{
    let chars = chars_of(text);
    let mut out: Vec<char> = Vec::new();
    let mut i: usize = 0;
    while i < chars.len()
        invariant
            i <= chars@.len(),
            chars@ == text@,
            out@ == flat(chars@.take(i as int)),
        decreases chars@.len() - i,
    {
        assert(chars@.take(i + 1).drop_last() =~= chars@.take(i as int));
        proof {
            reveal(Seq::filter);
        }
        if chars[i] != '_' {
            out.push(chars[i]);
        }
        i = i + 1;
    }
    assert(chars@.take(chars@.len() as int) =~= chars@);
    out
}

/// Whether two texts are the same once their underscores are taken out.
pub fn same_flat(a: &str, b: &str) -> (out: bool)
    ensures
        out == (flat(a@) == flat(b@)),
{
    same_chars(&flattened(a), &flattened(b))
}

/// Whether `needle` appears in `text`.
pub fn contains_text(text: &str, needle: &str) -> (out: bool)
    ensures
        out == occurs(text@, needle@),
{
    let hay = chars_of(text);
    let pin = chars_of(needle);
    if pin.len() > hay.len() {
        assert forall|at: int| !#[trigger] occurs_at(text@, needle@, at) by {}
        return false;
    }
    let mut at: usize = 0;
    while at <= hay.len() - pin.len()
        invariant
            hay@ == text@,
            pin@ == needle@,
            pin@.len() <= hay@.len(),
            at <= hay@.len() - pin@.len() + 1,
            forall|b: int| 0 <= b < at ==> !#[trigger] occurs_at(text@, needle@, b),
        decreases hay@.len() - pin@.len() + 1 - at,
    {
        let mut k: usize = 0;
        let mut same = true;
        while k < pin.len()
            invariant
                hay@ == text@,
                pin@ == needle@,
                at + pin@.len() <= hay@.len(),
                hay@.len() <= usize::MAX,
                k <= pin@.len(),
                same == forall|j: int| 0 <= j < k ==> hay@[at + j] == pin@[j],
            decreases pin@.len() - k,
        {
            if hay[at + k] != pin[k] {
                same = false;
            }
            k = k + 1;
        }
        if same {
            assert(hay@.subrange(at as int, at + pin@.len()) =~= pin@);
            assert(occurs_at(text@, needle@, at as int));
            return true;
        }
        assert(!occurs_at(text@, needle@, at as int)) by {
            let j = choose|j: int| 0 <= j < pin@.len() && hay@[at + j] != pin@[j];
            assert(hay@.subrange(at as int, at + pin@.len())[j] == hay@[at + j]);
        }
        at = at + 1;
    }
    assert forall|b: int| !#[trigger] occurs_at(text@, needle@, b) by {}
    false
}

/// The character for a hexadecimal digit, lower case.
pub open spec fn hex_char(d: nat) -> char {
    if d < 10 {
        digit_char(d)
    } else {
        ((87 + d) as u8) as char
    }
}

/// A number in hexadecimal, lower case, with no leading zeros.
pub open spec fn hex_spec(n: nat) -> Seq<char>
    decreases n,
{
    if n < 16 {
        seq![hex_char(n)]
    } else {
        hex_spec(n / 16).push(hex_char(n % 16))
    }
}

/// A number in hexadecimal, padded with leading zeros to at least `width` characters.
pub open spec fn hex_padded_spec(n: nat, width: nat) -> Seq<char> {
    let digits = hex_spec(n);
    if digits.len() >= width {
        digits
    } else {
        Seq::new((width - digits.len()) as nat, |i: int| '0') + digits
    }
}

/// The character for a hexadecimal digit.
fn hex_digit(d: u64) -> (c: char)
    requires
        d < 16,
    ensures
        c == hex_char(d as nat),
{
    if d < 10 {
        digit(d)
    } else {
        ((87u8 + d as u8) as char)
    }
}

/// A number in hexadecimal, lower case, as `{:x}` writes it.
pub fn hex(n: u64) -> (out: String)
    ensures
        out@ == hex_spec(n as nat),
    decreases n,
{
    if n < 16 {
        let mut out = String::new();
        push_char(&mut out, hex_digit(n));
        assert(out@ =~= hex_spec(n as nat));
        out
    } else {
        let mut out = hex(n / 16);
        push_char(&mut out, hex_digit(n % 16));
        out
    }
}

/// A number in hexadecimal, padded with zeros to `width` characters, as `{:0width$x}` writes it.
pub fn hex_padded(n: u64, width: usize) -> (out: String)
    ensures
        out@ == hex_padded_spec(n as nat, width as nat),
{
    let digits = hex(n);
    let length = digits.as_str().unicode_len();
    if length >= width {
        return digits;
    }
    let mut out = String::new();
    let mut i: usize = 0;
    while i < width - length
        invariant
            length < width,
            length == hex_spec(n as nat).len(),
            i <= width - length,
            out@ == Seq::new(i as nat, |k: int| '0'),
        decreases width - length - i,
    {
        push_char(&mut out, '0');
        assert(out@ =~= Seq::new((i + 1) as nat, |k: int| '0'));
        i = i + 1;
    }
    out.append(digits.as_str());
    out
}

/// A signed number in decimal, with a minus sign when it is negative.
pub open spec fn signed_decimal_spec(n: int) -> Seq<char> {
    if n < 0 {
        seq!['-'] + decimal_spec((-n) as nat)
    } else {
        decimal_spec(n as nat)
    }
}

/// A signed number in decimal, as `{}` writes it.
pub fn signed_decimal(n: i32) -> (out: String)
    ensures
        out@ == signed_decimal_spec(n as int),
{
    if n < 0 {
        let magnitude: u64 = (0i64 - n as i64) as u64;
        let mut out = String::new();
        push_char(&mut out, '-');
        out.append(decimal(magnitude).as_str());
        assert(out@ =~= signed_decimal_spec(n as int));
        out
    } else {
        decimal(n as u64)
    }
}

/// The value of a decimal digit; -1 for anything else.
pub open spec fn decimal_value(c: char) -> int {
    if '0' <= c <= '9' {
        c as int - '0' as int
    } else {
        -1
    }
}

/// Whether every character is a decimal digit.
pub open spec fn all_decimal(digits: Seq<char>) -> bool {
    forall|i: int| 0 <= i < digits.len() ==> decimal_value(#[trigger] digits[i]) >= 0
}

/// The number decimal digits spell.
pub open spec fn decimal_digits_value(digits: Seq<char>) -> int
    decreases digits.len(),
{
    if digits.len() == 0 {
        0
    } else {
        decimal_digits_value(digits.drop_last()) * 10 + decimal_value(digits.last())
    }
}

/// A count as `usize::from_str` reads it: an optional `+`, then at least one digit and nothing
/// else, and a value that fits.
pub open spec fn count_number(text: Seq<char>) -> Option<usize> {
    let digits = if text.len() > 0 && text[0] == '+' {
        text.drop_first()
    } else {
        text
    };
    if digits.len() > 0 && all_decimal(digits) && decimal_digits_value(digits) <= usize::MAX {
        Some(decimal_digits_value(digits) as usize)
    } else {
        None
    }
}

/// A number written in decimal reads back as its digits' value, all of them digits.
pub proof fn lemma_decimal_reads_back(n: nat)
    ensures
        all_decimal(decimal_spec(n)),
        decimal_digits_value(decimal_spec(n)) == n,
        decimal_spec(n).len() > 0,
        decimal_spec(n)[0] != '+',
    decreases n,
{
    if n < 10 {
        let c = digit_char(n);
        assert(c as int == 48 + n);
        assert(decimal_spec(n) =~= seq![c]);
        assert(seq![c].drop_last() =~= Seq::<char>::empty());
        assert(decimal_value(c) == n);
        assert(decimal_digits_value(seq![c]) == decimal_digits_value(Seq::<char>::empty()) * 10
            + decimal_value(c));
    } else {
        lemma_decimal_reads_back(n / 10);
        let c = digit_char(n % 10);
        assert(c as int == 48 + n % 10);
        let d = decimal_spec(n);
        assert(d.drop_last() =~= decimal_spec(n / 10));
        assert(d[0] == decimal_spec(n / 10)[0]);
        assert(d.last() == c);
        assert(decimal_value(c) == n % 10);
        assert(decimal_digits_value(d) == decimal_digits_value(d.drop_last()) * 10 + decimal_value(
            d.last(),
        ));
        assert forall|i: int| 0 <= i < d.len() implies decimal_value(#[trigger] d[i]) >= 0 by {
            if i < d.len() - 1 {
                assert(d[i] == decimal_spec(n / 10)[i]);
            }
        }
    }
}

/// A count written in decimal reads back as that count: [`parse_count`] undoes [`decimal`].
pub proof fn law_counts_read_back(n: nat)
    requires
        n <= usize::MAX,
    ensures
        count_number(decimal_spec(n)) == Some(n as usize),
{
    lemma_decimal_reads_back(n);
}

/// Adding digits never makes a number smaller.
pub proof fn lemma_decimal_grow(digits: Seq<char>, n: int)
    requires
        0 <= n <= digits.len(),
        all_decimal(digits),
    ensures
        decimal_digits_value(digits.subrange(0, n)) <= decimal_digits_value(digits),
        decimal_digits_value(digits) >= 0,
    decreases digits.len(),
{
    if digits.len() > 0 {
        let shorter = digits.drop_last();
        assert(all_decimal(shorter)) by {
            assert forall|i: int| 0 <= i < shorter.len() implies decimal_value(
                #[trigger] shorter[i],
            ) >= 0 by {
                assert(shorter[i] == digits[i]);
            }
        }
        assert(decimal_value(digits[digits.len() - 1]) >= 0);
        if n < digits.len() {
            lemma_decimal_grow(shorter, n);
            assert(shorter.subrange(0, n) =~= digits.subrange(0, n));
        } else {
            lemma_decimal_grow(shorter, 0);
            assert(digits.subrange(0, n) =~= digits);
        }
    }
}

/// A text read as a count, as `str::parse::<usize>` reads one.
pub fn parse_count(text: &str) -> (out: Option<usize>)
    ensures
        out == count_number(text@),
{
    let chars = chars_of(text);
    let to = chars.len();
    let mut start: usize = 0;
    if start < to && chars[start] == '+' {
        start = start + 1;
    }
    let ghost digits = chars@.subrange(start as int, to as int);
    assert(digits =~= if text@.len() > 0 && text@[0] == '+' {
        text@.drop_first()
    } else {
        text@
    });
    if start == to {
        assert(digits.len() == 0);
        return None;
    }
    let mut value: usize = 0;
    let mut i = start;
    assert(chars@.subrange(start as int, start as int) =~= Seq::<char>::empty());
    while i < to
        invariant
            start <= i <= to == chars@.len(),
            chars@ == text@,
            digits == chars@.subrange(start as int, to as int),
            digits == if text@.len() > 0 && text@[0] == '+' {
                text@.drop_first()
            } else {
                text@
            },
            all_decimal(chars@.subrange(start as int, i as int)),
            value == decimal_digits_value(chars@.subrange(start as int, i as int)),
        decreases to - i,
    {
        let ghost before = chars@.subrange(start as int, i as int);
        let ghost after = chars@.subrange(start as int, i + 1);
        assert(after.drop_last() =~= before);
        assert(after.last() == chars@[i as int]);
        let c = chars[i];
        if !('0' <= c && c <= '9') {
            assert(digits[i - start] == chars@[i as int]);
            assert(!all_decimal(digits));
            assert(count_number(text@) is None);
            return None;
        }
        let d = (c as u32 - '0' as u32) as usize;
        assert(all_decimal(after)) by {
            assert forall|k: int| 0 <= k < after.len() implies decimal_value(#[trigger] after[k])
                >= 0 by {
                if k < before.len() {
                    assert(after[k] == before[k]);
                }
            }
        }
        let next = match value.checked_mul(10) {
            Some(tens) => tens.checked_add(d),
            None => None,
        };
        match next {
            Some(n) => {
                value = n;
            },
            None => {
                proof {
                    assert(decimal_digits_value(after) == value * 10 + d);
                    if all_decimal(digits) {
                        lemma_decimal_grow(digits, i + 1 - start);
                        assert(digits.subrange(0, i + 1 - start) =~= after);
                        assert(decimal_digits_value(digits) > usize::MAX);
                    }
                    assert(count_number(text@) is None);
                }
                return None;
            },
        }
        i = i + 1;
    }
    assert(chars@.subrange(start as int, i as int) =~= digits);
    Some(value)
}

} // verus!
