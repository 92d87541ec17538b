//! Reading the text files that results, tables and lists are kept in: their lines, the
//! `hash,name` rows in them, and the hashes a table resolves.
//!
//! A file is read whole by the caller; what is here only takes the text apart.

use std::collections::HashSet;

use vstd::prelude::*;

use crate::hash::{hash64, hash_of};
use crate::names::lowercase;
use crate::order::text_le;
use crate::text::{
    chars_of, hex_char, hex_spec, is_space, string_from, texts, trim_bounds, trim_end_spec,
    trim_start_spec, trimmed,
};
use crate::ID_MASK;

verus! {

broadcast use vstd::std_specs::hash::group_hash_axioms;

/// Where the line that starts at `from` ends: at the first line feed from there on, or at the
/// end of the text.
pub open spec fn line_end(text: Seq<char>, from: int) -> int
    decreases text.len() - from,
{
    if from >= text.len() {
        text.len() as int
    } else if text[from] == '\n' {
        from
    } else {
        line_end(text, from + 1)
    }
}

/// The line that starts at `from`, as `str::lines` gives it: without its line feed, and without
/// a carriage return that stands just before that line feed.
pub open spec fn line_at(text: Seq<char>, from: int) -> Seq<char> {
    let end = line_end(text, from);
    if end < text.len() && end > from && text[end - 1] == '\r' {
        text.subrange(from, end - 1)
    } else {
        text.subrange(from, end)
    }
}

/// The lines of a text from `from` on, as `str::lines` gives them: a text that ends in a line
/// feed has no empty line after it.
pub open spec fn lines_from(text: Seq<char>, from: int) -> Seq<Seq<char>>
    decreases text.len() - from,
{
    if from < 0 || from >= text.len() {
        Seq::empty()
    } else {
        let end = line_end(text, from);
        if end < from {
            Seq::empty()
        } else if end >= text.len() {
            seq![line_at(text, from)]
        } else {
            seq![line_at(text, from)] + lines_from(text, end + 1)
        }
    }
}

/// The lines of a text.
pub open spec fn lines(text: Seq<char>) -> Seq<Seq<char>> {
    lines_from(text, 0)
}

/// Where the first comma in `line` is, looking from `i` on; -1 when there is none.
pub open spec fn comma_from(line: Seq<char>, i: int) -> int
    decreases line.len() - i,
{
    if i < 0 || i >= line.len() {
        -1
    } else if line[i] == ',' {
        i
    } else {
        comma_from(line, i + 1)
    }
}

/// Where the first comma in `line` is; -1 when there is none.
pub open spec fn first_comma(line: Seq<char>) -> int {
    comma_from(line, 0)
}

/// The value of a hexadecimal digit, either case; -1 for anything else.
pub open spec fn hex_value(c: char) -> int {
    if '0' <= c <= '9' {
        c as int - '0' as int
    } else if 'a' <= c <= 'f' {
        c as int - 'a' as int + 10
    } else if 'A' <= c <= 'F' {
        c as int - 'A' as int + 10
    } else {
        -1
    }
}

/// Whether every character is a hexadecimal digit.
pub open spec fn all_hex(digits: Seq<char>) -> bool {
    forall|i: int| 0 <= i < digits.len() ==> hex_value(#[trigger] digits[i]) >= 0
}

/// The number hexadecimal digits spell.
pub open spec fn digits_value(digits: Seq<char>) -> int
    decreases digits.len(),
{
    if digits.len() == 0 {
        0
    } else {
        digits_value(digits.drop_last()) * 16 + hex_value(digits.last())
    }
}

/// A hexadecimal number as `u64::from_str_radix(text, 16)` reads it: an optional `+`, then at
/// least one digit and nothing else, and a value that fits.
pub open spec fn hex_number(text: Seq<char>) -> Option<u64> {
    let digits = if text.len() > 0 && text[0] == '+' {
        text.drop_first()
    } else {
        text
    };
    if digits.len() > 0 && all_hex(digits) && digits_value(digits) <= u64::MAX {
        Some(digits_value(digits) as u64)
    } else {
        None
    }
}

/// The row a line of a `hash,name` file holds, if it holds one: the line is trimmed and cut at
/// its first comma, the key before it is read in hexadecimal once trimmed, and its id is kept
/// with the rest of the line as the name.
pub open spec fn row_of(line: Seq<char>) -> Option<(u64, Seq<char>)> {
    let t = trimmed(line);
    let c = first_comma(t);
    if c < 0 {
        None
    } else {
        match hex_number(trimmed(t.subrange(0, c))) {
            Some(value) => Some((value & ID_MASK, t.subrange(c + 1, t.len() as int))),
            None => None,
        }
    }
}

/// The rows a run of lines holds, in order.
pub open spec fn rows_of_lines(lines: Seq<Seq<char>>) -> Seq<(u64, Seq<char>)>
    decreases lines.len(),
{
    if lines.len() == 0 {
        Seq::empty()
    } else {
        rows_of_lines(lines.drop_last()) + match row_of(lines.last()) {
            Some(row) => seq![row],
            None => Seq::empty(),
        }
    }
}

/// The name a line gives: the part after the first comma when what stands before it is a
/// hexadecimal key, and otherwise the whole line, trimmed either way.
pub open spec fn name_in(line: Seq<char>) -> Seq<char> {
    let t = trimmed(line);
    let c = first_comma(t);
    if c >= 0 && hex_number(t.subrange(0, c)) is Some {
        t.subrange(c + 1, t.len() as int)
    } else {
        t
    }
}

/// The names a run of lines gives, leaving out the empty ones.
pub open spec fn names_in(lines: Seq<Seq<char>>) -> Seq<Seq<char>>
    decreases lines.len(),
{
    if lines.len() == 0 {
        Seq::empty()
    } else {
        names_in(lines.drop_last()) + if name_in(lines.last()).len() > 0 {
            seq![name_in(lines.last())]
        } else {
            Seq::empty()
        }
    }
}

/// The items of a list, one a line: each line trimmed, the empty ones left out.
pub open spec fn items_in(lines: Seq<Seq<char>>) -> Seq<Seq<char>>
    decreases lines.len(),
{
    if lines.len() == 0 {
        Seq::empty()
    } else {
        items_in(lines.drop_last()) + if trimmed(lines.last()).len() > 0 {
            seq![trimmed(lines.last())]
        } else {
            Seq::empty()
        }
    }
}

/// The hashes one line of a table resolves: the key before its first comma, read in
/// hexadecimal once trimmed, and the hash of the trimmed name after it, each also with bit 63
/// cleared. A line with no comma resolves nothing.
pub open spec fn keys_in(line: Seq<char>) -> Set<u64> {
    let c = first_comma(line);
    if c < 0 {
        Set::empty()
    } else {
        let stored = match hex_number(trimmed(line.subrange(0, c))) {
            Some(value) => set![value, value & ID_MASK],
            None => Set::empty(),
        };
        let hash = hash_of(trimmed(line.subrange(c + 1, line.len() as int)), true);
        stored.union(set![hash, hash & ID_MASK])
    }
}

/// The hashes a run of lines resolves.
pub open spec fn keys_of_lines(lines: Seq<Seq<char>>) -> Set<u64>
    decreases lines.len(),
{
    if lines.len() == 0 {
        Set::empty()
    } else {
        keys_of_lines(lines.drop_last()).union(keys_in(lines.last()))
    }
}

/// The line a row is written as: its id in lower-case hexadecimal, a comma, and its name.
pub open spec fn row_line(id: u64, name: Seq<char>) -> Seq<char> {
    hex_spec(id as nat) + seq![','] + name + seq!['\n']
}

/// The text of a file of rows, one line each, in order.
pub open spec fn rows_text(rows: Seq<(u64, Seq<char>)>) -> Seq<char>
    decreases rows.len(),
{
    if rows.len() == 0 {
        Seq::empty()
    } else {
        rows_text(rows.drop_last()) + row_line(rows.last().0, rows.last().1)
    }
}

/// Whether `rows` are the rows of `table`, each id once, in order of their lowered names.
pub open spec fn lists_in_order(rows: Seq<(u64, Seq<char>)>, table: Map<u64, Seq<char>>) -> bool {
    &&& forall|i: int|
        0 <= i < rows.len() ==> table.contains_key(#[trigger] rows[i].0) && table[rows[i].0]
            == rows[i].1
    &&& forall|i: int, j: int| 0 <= i < j < rows.len() ==> rows[i].0 != rows[j].0
    &&& forall|id: u64|
        #[trigger] table.contains_key(id) ==> exists|i: int| 0 <= i < rows.len() && rows[i].0 == id
    &&& forall|i: int, j: int|
        0 <= i < j < rows.len() ==> text_le(lowercase(rows[i].1), lowercase(rows[j].1))
}

/// Whether `text` is a file that holds `table`: its rows, each id once, in order of their
/// lowered names.
pub open spec fn file_lists(text: Seq<char>, table: Map<u64, Seq<char>>) -> bool {
    exists|rows: Seq<(u64, Seq<char>)>| lists_in_order(rows, table) && text == rows_text(rows)
}

/// Rows with their names taken as texts.
pub open spec fn row_texts(rows: Seq<(u64, String)>) -> Seq<(u64, Seq<char>)> {
    rows.map_values(|row: (u64, String)| (row.0, row.1@))
}

/// The first line starting at `from` is followed by the rest.
proof fn lemma_line_end(text: Seq<char>, from: int)
    requires
        0 <= from <= text.len(),
    ensures
        from <= line_end(text, from) <= text.len(),
    decreases text.len() - from,
{
    if from < text.len() && text[from] != '\n' {
        lemma_line_end(text, from + 1);
    }
}

/// Where the line from `from` ends.
fn find_line_end(chars: &Vec<char>, from: usize) -> (end: usize)
    requires
        from <= chars@.len(),
    ensures
        end == line_end(chars@, from as int),
{
    let mut i = from;
    while i < chars.len() && chars[i] != '\n'
        invariant
            from <= i <= chars@.len(),
            line_end(chars@, i as int) == line_end(chars@, from as int),
        decreases chars@.len() - i,
    {
        i = i + 1;
    }
    i
}

/// The next line from `from` on, as where it starts and stops, and where the line after it
/// starts.
fn next_line(chars: &Vec<char>, from: usize) -> (out: (usize, usize))
    requires
        from < chars@.len(),
    ensures
        from <= out.0 <= chars@.len(),
        out.1 <= chars@.len(),
        out.1 > from,
        chars@.subrange(from as int, out.0 as int) == line_at(chars@, from as int),
        lines_from(chars@, from as int) == seq![line_at(chars@, from as int)] + lines_from(
            chars@,
            out.1 as int,
        ),
{
    let end = find_line_end(chars, from);
    proof {
        lemma_line_end(chars@, from as int);
    }
    let stop = if end < chars.len() && end > from && chars[end - 1] == '\r' {
        end - 1
    } else {
        end
    };
    let next = if end < chars.len() {
        end + 1
    } else {
        end
    };
    proof {
        if end == chars@.len() {
            assert(lines_from(chars@, next as int) == Seq::<Seq<char>>::empty());
            assert(seq![line_at(chars@, from as int)] + lines_from(chars@, next as int)
                =~= seq![line_at(chars@, from as int)]);
        }
    }
    (stop, next)
}

/// Where the first comma in `chars[from..to]` is, counted from `from`.
fn comma_in(chars: &Vec<char>, from: usize, to: usize) -> (out: Option<usize>)
    requires
        from <= to <= chars@.len(),
    ensures
        match out {
            Some(at) => at < to - from && first_comma(chars@.subrange(from as int, to as int))
                == at,
            None => first_comma(chars@.subrange(from as int, to as int)) == -1,
        },
{
    let ghost piece = chars@.subrange(from as int, to as int);
    let mut i = from;
    while i < to
        invariant
            from <= i <= to <= chars@.len(),
            piece == chars@.subrange(from as int, to as int),
            comma_from(piece, i - from) == first_comma(piece),
        decreases to - i,
    {
        if chars[i] == ',' {
            assert(piece[i - from] == ',');
            return Some(i - from);
        }
        assert(piece[i - from] != ',');
        i = i + 1;
    }
    None
}

/// The value of a hexadecimal digit, if it is one.
fn hex_digit_value(c: char) -> (out: Option<u64>)
    ensures
        match out {
            Some(d) => hex_value(c) == d && d < 16,
            None => hex_value(c) < 0,
        },
{
    if '0' <= c && c <= '9' {
        Some((c as u32 - '0' as u32) as u64)
    } else if 'a' <= c && c <= 'f' {
        Some((c as u32 - 'a' as u32 + 10) as u64)
    } else if 'A' <= c && c <= 'F' {
        Some((c as u32 - 'A' as u32 + 10) as u64)
    } else {
        None
    }
}

/// Adding digits never makes a number smaller.
proof fn lemma_digits_grow(digits: Seq<char>, n: int)
    requires
        0 <= n <= digits.len(),
        all_hex(digits),
    ensures
        digits_value(digits.subrange(0, n)) <= digits_value(digits),
        digits_value(digits) >= 0,
    decreases digits.len(),
{
    if digits.len() > 0 {
        let shorter = digits.drop_last();
        assert(all_hex(shorter)) by {
            assert forall|i: int| 0 <= i < shorter.len() implies hex_value(#[trigger] shorter[i])
                >= 0 by {
                assert(shorter[i] == digits[i]);
            }
        }
        assert(hex_value(digits[digits.len() - 1]) >= 0);
        if n < digits.len() {
            lemma_digits_grow(shorter, n);
            assert(shorter.subrange(0, n) =~= digits.subrange(0, n));
        } else {
            lemma_digits_grow(shorter, 0);
            assert(digits.subrange(0, n) =~= digits);
        }
    }
}

/// `chars[from..to]` read as `u64::from_str_radix` reads hexadecimal.
fn parse_hex(chars: &Vec<char>, from: usize, to: usize) -> (out: Option<u64>)
    requires
        from <= to <= chars@.len(),
    ensures
        out == hex_number(chars@.subrange(from as int, to as int)),
{
    let ghost text = chars@.subrange(from as int, to as int);
    let mut start = from;
    if start < to && chars[start] == '+' {
        start = start + 1;
    }
    let ghost digits = chars@.subrange(start as int, to as int);
    assert(digits =~= if text.len() > 0 && text[0] == '+' {
        text.drop_first()
    } else {
        text
    });
    if start == to {
        assert(digits.len() == 0);
        assert(hex_number(text) is None);
        return None;
    }
    let mut value: u64 = 0;
    let mut i = start;
    assert(chars@.subrange(start as int, start as int) =~= Seq::<char>::empty());
    while i < to
        invariant
            from <= start <= i <= to <= chars@.len(),
            digits == chars@.subrange(start as int, to as int),
            text == chars@.subrange(from as int, to as int),
            digits == if text.len() > 0 && text[0] == '+' {
                text.drop_first()
            } else {
                text
            },
            all_hex(chars@.subrange(start as int, i as int)),
            value == digits_value(chars@.subrange(start as int, i as int)),
        decreases to - i,
    {
        let ghost before = chars@.subrange(start as int, i as int);
        let ghost after = chars@.subrange(start as int, i + 1);
        assert(after.drop_last() =~= before);
        assert(after.last() == chars@[i as int]);
        match hex_digit_value(chars[i]) {
            None => {
                assert(digits[i - start] == chars@[i as int]);
                assert(!all_hex(digits));
                assert(hex_number(text) is None);
                return None;
            },
            Some(d) => {
                assert(all_hex(after)) by {
                    assert forall|k: int| 0 <= k < after.len() implies hex_value(
                        #[trigger] after[k],
                    ) >= 0 by {
                        if k < before.len() {
                            assert(after[k] == before[k]);
                        }
                    }
                }
                if value >= 0x1000_0000_0000_0000 {
                    proof {
                        assert(digits_value(after) == value * 16 + d);
                        if all_hex(digits) {
                            lemma_digits_grow(digits, i + 1 - start);
                            assert(digits.subrange(0, i + 1 - start) =~= after);
                            assert(digits_value(digits) > u64::MAX);
                        }
                        assert(hex_number(text) is None);
                    }
                    return None;
                }
                value = value * 16 + d;
            },
        }
        i = i + 1;
    }
    assert(chars@.subrange(start as int, i as int) =~= digits);
    Some(value)
}

/// The rows of a `hash,name` file: each line that holds a key and a name gives the key, with bit
/// 63 cleared, and the name. Lines that hold none are passed over.
pub fn rows_of(text: &str) -> (out: Vec<(u64, String)>)
    ensures
        row_texts(out@) == rows_of_lines(lines(text@)),
{
    let chars = chars_of(text);
    let mut out: Vec<(u64, String)> = Vec::new();
    let mut from: usize = 0;
    let ghost mut done: Seq<Seq<char>> = Seq::empty();
    while from < chars.len()
        invariant
            from <= chars@.len(),
            chars@ == text@,
            lines(text@) == done + lines_from(chars@, from as int),
            row_texts(out@) == rows_of_lines(done),
        decreases chars@.len() - from,
    {
        let (stop, next) = next_line(&chars, from);
        let ghost line = line_at(chars@, from as int);
        let (a, b) = trim_bounds(&chars, from, stop);
        let ghost t = trimmed(line);
        let before = out.len();
        let ghost old_out = out@;
        match comma_in(&chars, a, b) {
            Some(c) => {
                let (ka, kb) = trim_bounds(&chars, a, a + c);
                assert(chars@.subrange(a as int, (a + c) as int) =~= t.subrange(0, c as int));
                match parse_hex(&chars, ka, kb) {
                    Some(value) => {
                        let name = string_from(&chars, a + c + 1, b);
                        assert(chars@.subrange((a + c + 1) as int, b as int) =~= t.subrange(
                            c + 1,
                            t.len() as int,
                        ));
                        out.push((value & ID_MASK, name));
                    },
                    None => {},
                }
            },
            None => {},
        }
        proof {
            assert(done.push(line).drop_last() =~= done);
            assert(row_texts(out@) =~= rows_of_lines(done.push(line)));
            assert(lines(text@) =~= done.push(line) + lines_from(chars@, next as int));
            done = done.push(line);
        }
        from = next;
    }
    assert(done + lines_from(chars@, from as int) =~= done);
    out
}

/// The names in a file: the name after the key where a line holds a `hash,name` row, and the
/// whole line where it does not. Empty lines give nothing.
pub fn names_of(text: &str) -> (out: Vec<String>)
    ensures
        texts(out@) == names_in(lines(text@)),
{
    let chars = chars_of(text);
    let mut out: Vec<String> = Vec::new();
    let mut from: usize = 0;
    let ghost mut done: Seq<Seq<char>> = Seq::empty();
    while from < chars.len()
        invariant
            from <= chars@.len(),
            chars@ == text@,
            lines(text@) == done + lines_from(chars@, from as int),
            texts(out@) == names_in(done),
        decreases chars@.len() - from,
    {
        let (stop, next) = next_line(&chars, from);
        let ghost line = line_at(chars@, from as int);
        let (a, b) = trim_bounds(&chars, from, stop);
        let ghost t = trimmed(line);
        let mut start = a;
        match comma_in(&chars, a, b) {
            Some(c) => {
                assert(chars@.subrange(a as int, (a + c) as int) =~= t.subrange(0, c as int));
                if parse_hex(&chars, a, a + c).is_some() {
                    start = a + c + 1;
                }
            },
            None => {},
        }
        assert(chars@.subrange(start as int, b as int) =~= name_in(line));
        if start < b {
            out.push(string_from(&chars, start, b));
        }
        proof {
            assert(done.push(line).drop_last() =~= done);
            assert(texts(out@) =~= names_in(done.push(line)));
            assert(lines(text@) =~= done.push(line) + lines_from(chars@, next as int));
            done = done.push(line);
        }
        from = next;
    }
    assert(done + lines_from(chars@, from as int) =~= done);
    out
}

/// The items of a list kept one a line: each line trimmed, the empty ones left out.
pub fn items_of(text: &str) -> (out: Vec<String>)
    ensures
        texts(out@) == items_in(lines(text@)),
{
    let chars = chars_of(text);
    let mut out: Vec<String> = Vec::new();
    let mut from: usize = 0;
    let ghost mut done: Seq<Seq<char>> = Seq::empty();
    while from < chars.len()
        invariant
            from <= chars@.len(),
            chars@ == text@,
            lines(text@) == done + lines_from(chars@, from as int),
            texts(out@) == items_in(done),
        decreases chars@.len() - from,
    {
        let (stop, next) = next_line(&chars, from);
        let ghost line = line_at(chars@, from as int);
        let (a, b) = trim_bounds(&chars, from, stop);
        if a < b {
            out.push(string_from(&chars, a, b));
        }
        proof {
            assert(done.push(line).drop_last() =~= done);
            assert(texts(out@) =~= items_in(done.push(line)));
            assert(lines(text@) =~= done.push(line) + lines_from(chars@, next as int));
            done = done.push(line);
        }
        from = next;
    }
    assert(done + lines_from(chars@, from as int) =~= done);
    out
}

/// Adds to `known` every hash a table's text resolves: for each line with a comma, the key
/// before it and the hash of the name after it, each also with bit 63 cleared, since a table can
/// hold one at a different width from the other.
pub fn add_keys(text: &str, known: &mut HashSet<u64>)
    ensures
        final(known)@ == old(known)@.union(keys_of_lines(lines(text@))),
{
    let chars = chars_of(text);
    let mut from: usize = 0;
    let ghost mut done: Seq<Seq<char>> = Seq::empty();
    let ghost start = known@;
    while from < chars.len()
        invariant
            from <= chars@.len(),
            chars@ == text@,
            lines(text@) == done + lines_from(chars@, from as int),
            known@ == start.union(keys_of_lines(done)),
        decreases chars@.len() - from,
    {
        let (stop, next) = next_line(&chars, from);
        let ghost line = line_at(chars@, from as int);
        let ghost before = known@;
        assert(chars@.subrange(from as int, stop as int) == line);
        match comma_in(&chars, from, stop) {
            Some(c) => {
                let at = from + c;
                let (ka, kb) = trim_bounds(&chars, from, at);
                assert(chars@.subrange(from as int, at as int) =~= line.subrange(0, c as int));
                match parse_hex(&chars, ka, kb) {
                    Some(value) => {
                        known.insert(value);
                        known.insert(value & ID_MASK);
                    },
                    None => {},
                }
                let (na, nb) = trim_bounds(&chars, at + 1, stop);
                assert(chars@.subrange((at + 1) as int, stop as int) =~= line.subrange(
                    c + 1,
                    line.len() as int,
                ));
                let name = string_from(&chars, na, nb);
                let hash = hash64(name.as_str());
                known.insert(hash);
                known.insert(hash & ID_MASK);
                assert(known@ =~= before.union(keys_in(line)));
            },
            None => {
                assert(known@ =~= before.union(keys_in(line)));
            },
        }
        proof {
            assert(done.push(line).drop_last() =~= done);
            assert(known@ =~= start.union(keys_of_lines(done.push(line))));
            assert(lines(text@) =~= done.push(line) + lines_from(chars@, next as int));
            done = done.push(line);
        }
        from = next;
    }
    assert(done + lines_from(chars@, from as int) =~= done);
}

/// Where a line ends, in a text with more after it: where it ends in the part it starts in,
/// when that part ends with a line feed.
proof fn lemma_line_end_before(a: Seq<char>, b: Seq<char>, from: int)
    requires
        0 <= from < a.len(),
        a.last() == '\n',
    ensures
        line_end(a + b, from) == line_end(a, from),
        line_end(a, from) < a.len(),
    decreases a.len() - from,
{
    if a[from] != '\n' {
        lemma_line_end_before(a, b, from + 1);
    }
}

/// Where a line ends, in a text with something before it: where it ends in the part it starts
/// in, moved along.
proof fn lemma_line_end_after(a: Seq<char>, b: Seq<char>, k: int)
    requires
        0 <= k <= b.len(),
    ensures
        line_end(a + b, a.len() + k) == a.len() + line_end(b, k),
        k <= line_end(b, k) <= b.len(),
    decreases b.len() - k,
{
    if k < b.len() {
        assert((a + b)[a.len() + k] == b[k]);
        if b[k] != '\n' {
            lemma_line_end_after(a, b, k + 1);
        }
    }
}

/// The lines of a text with something before it, from a place in the part after.
proof fn lemma_lines_after(a: Seq<char>, b: Seq<char>, k: int)
    requires
        0 <= k,
    ensures
        lines_from(a + b, a.len() + k) == lines_from(b, k),
    decreases b.len() - k,
{
    if k < b.len() {
        lemma_line_end_after(a, b, k);
        let e = line_end(b, k);
        assert(line_at(a + b, a.len() + k) =~= line_at(b, k)) by {
            if e > k {
                assert((a + b)[a.len() + e - 1] == b[e - 1]);
            }
        }
        if e < b.len() {
            lemma_lines_after(a, b, e + 1);
        }
    }
}

/// The lines of two texts put together, where the first ends with a line feed, are the lines
/// of each in turn.
proof fn lemma_lines_from_append(a: Seq<char>, b: Seq<char>, from: int)
    requires
        0 <= from <= a.len(),
        a.len() == 0 || a.last() == '\n',
    ensures
        lines_from(a + b, from) == lines_from(a, from) + lines_from(b, 0),
    decreases a.len() - from,
{
    if from == a.len() {
        lemma_lines_after(a, b, 0);
        assert(lines_from(a, from) + lines_from(b, 0) =~= lines_from(b, 0));
    } else {
        lemma_line_end(a, from);
        lemma_line_end_before(a, b, from);
        let e = line_end(a, from);
        assert(line_at(a + b, from) =~= line_at(a, from)) by {
            if e > from {
                assert((a + b)[e - 1] == a[e - 1]);
            }
        }
        lemma_lines_from_append(a, b, e + 1);
        assert(lines_from(a + b, from) =~= lines_from(a, from) + lines_from(b, 0));
    }
}

/// A line that ends with a line feed, put after a text that does, adds one line.
proof fn lemma_lines_push_line(a: Seq<char>, line: Seq<char>)
    requires
        a.len() == 0 || a.last() == '\n',
        forall|i: int| 0 <= i < line.len() ==> line[i] != '\n',
        line.len() == 0 || line.last() != '\r',
    ensures
        lines(a + line.push('\n')) == lines(a).push(line),
{
    lemma_lines_from_append(a, line.push('\n'), 0);
    let t = line.push('\n');
    assert(line_end(t, 0) == line.len()) by {
        lemma_line_end_scan(t, 0, line.len() as int);
    }
    assert(t.subrange(0, line.len() as int) =~= line);
    assert(lines_from(t, line.len() + 1int) == Seq::<Seq<char>>::empty());
    assert(lines_from(t, 0) =~= seq![line]);
    assert(lines(a).push(line) =~= lines(a) + seq![line]);
}

/// A line runs to the first line feed.
proof fn lemma_line_end_scan(t: Seq<char>, from: int, end: int)
    requires
        0 <= from <= end < t.len(),
        t[end] == '\n',
        forall|i: int| from <= i < end ==> t[i] != '\n',
    ensures
        line_end(t, from) == end,
    decreases end - from,
{
    if from < end {
        lemma_line_end_scan(t, from + 1, end);
    }
}

/// A hexadecimal digit is not white space, a comma, a line feed or a plus sign.
proof fn lemma_hex_digit_plain(c: char)
    requires
        hex_value(c) >= 0,
    ensures
        !is_space(c),
        c != ',',
        c != '\n',
        c != '+',
{
}

/// A number written in hexadecimal reads back as itself.
proof fn lemma_hex_reads_back(n: nat)
    requires
        n <= u64::MAX,
    ensures
        all_hex(hex_spec(n)),
        digits_value(hex_spec(n)) == n,
        hex_spec(n).len() > 0,
    decreases n,
{
    if n < 16 {
        assert(hex_value(hex_char(n)) == n);
        assert(hex_spec(n).drop_last() =~= Seq::<char>::empty());
        assert(hex_spec(n).last() == hex_char(n));
        assert(digits_value(Seq::<char>::empty()) == 0);
    } else {
        lemma_hex_reads_back(n / 16);
        let s = hex_spec(n / 16);
        assert(hex_value(hex_char(n % 16)) == n % 16);
        assert(hex_spec(n).drop_last() =~= s);
        assert(hex_spec(n).last() == hex_char(n % 16));
        assert((n / 16) * 16 + n % 16 == n) by (nonlinear_arith);
        assert(all_hex(hex_spec(n))) by {
            assert forall|i: int| 0 <= i < hex_spec(n).len() implies hex_value(
                #[trigger] hex_spec(n)[i],
            ) >= 0 by {
                if i < s.len() {
                    assert(hex_spec(n)[i] == s[i]);
                }
            }
        }
    }
}

/// Whether a row is written and read back as it is: its id has bit 63 clear, and its name
/// holds no line feed and does not end in white space.
pub open spec fn row_writable(id: u64, name: Seq<char>) -> bool {
    &&& id <= ID_MASK
    &&& forall|i: int| 0 <= i < name.len() ==> name[i] != '\n'
    &&& name.len() == 0 || !is_space(name.last())
}

/// The line a row is written as, without its line feed.
spec fn row_body(id: u64, name: Seq<char>) -> Seq<char> {
    hex_spec(id as nat) + seq![','] + name
}

/// The first comma is the first one there is.
proof fn lemma_comma_scan(t: Seq<char>, from: int, at: int)
    requires
        0 <= from <= at < t.len(),
        t[at] == ',',
        forall|i: int| from <= i < at ==> t[i] != ',',
    ensures
        comma_from(t, from) == at,
    decreases at - from,
{
    if from < at {
        lemma_comma_scan(t, from + 1, at);
    }
}

/// The characters of a number in hexadecimal are plain digits.
proof fn lemma_hex_plain(n: u64)
    ensures
        hex_spec(n as nat).len() > 0,
        all_hex(hex_spec(n as nat)),
        hex_number(hex_spec(n as nat)) == Some(n),
        forall|i: int|
            0 <= i < hex_spec(n as nat).len() ==> !is_space(#[trigger] hex_spec(n as nat)[i])
                && hex_spec(n as nat)[i] != ',' && hex_spec(n as nat)[i] != '\n',
{
    let h = hex_spec(n as nat);
    lemma_hex_reads_back(n as nat);
    assert forall|i: int| 0 <= i < h.len() implies !is_space(#[trigger] h[i]) && h[i] != ','
        && h[i] != '\n' by {
        lemma_hex_digit_plain(h[i]);
    }
    lemma_hex_digit_plain(h[0]);
    assert(h[0] != '+');
}

/// The line a writable row is written as reads back as that row.
proof fn lemma_row_reads_back(id: u64, name: Seq<char>)
    requires
        row_writable(id, name),
    ensures
        row_of(row_body(id, name)) == Some((id, name)),
        name_in(row_body(id, name)) == name,
        forall|i: int| 0 <= i < row_body(id, name).len() ==> row_body(id, name)[i] != '\n',
        row_body(id, name).last() != '\r',
{
    let h = hex_spec(id as nat);
    let t = row_body(id, name);
    lemma_hex_plain(id);
    lemma_hex_digit_plain(h[0]);
    assert(t[0] == h[0]);
    assert(!is_space(t.last())) by {
        if name.len() > 0 {
            assert(t.last() == name.last());
        } else {
            assert(t.last() == ',');
        }
    }
    assert(trimmed(t) == t);
    assert(trimmed(h) == h) by {
        lemma_hex_digit_plain(h[h.len() - 1]);
    }
    assert forall|i: int| 0 <= i < h.len() implies t[i] != ',' by {
        assert(t[i] == h[i]);
    }
    lemma_comma_scan(t, 0, h.len() as int);
    assert(t.subrange(0, h.len() as int) =~= h);
    assert(t.subrange(h.len() + 1int, t.len() as int) =~= name);
    assert(id & 0x7FFF_FFFF_FFFF_FFFFu64 == id) by (bit_vector)
        requires
            id <= 0x7FFF_FFFF_FFFF_FFFFu64,
    ;
    assert forall|i: int| 0 <= i < t.len() implies t[i] != '\n' by {
        if i < h.len() {
            assert(t[i] == h[i]);
        } else if i > h.len() {
            assert(t[i] == name[i - h.len() - 1]);
        }
    }
}

/// A file of writable rows splits into their lines.
proof fn lemma_rows_text_lines(rows: Seq<(u64, Seq<char>)>)
    requires
        forall|i: int| 0 <= i < rows.len() ==> row_writable(#[trigger] rows[i].0, rows[i].1),
    ensures
        lines(rows_text(rows)) == rows.map_values(|row: (u64, Seq<char>)| row_body(row.0, row.1)),
        rows_text(rows).len() == 0 || rows_text(rows).last() == '\n',
    decreases rows.len(),
{
    if rows.len() == 0 {
        assert(lines(Seq::<char>::empty()) == Seq::<Seq<char>>::empty());
        assert(rows.map_values(|row: (u64, Seq<char>)| row_body(row.0, row.1)) =~= Seq::<
            Seq<char>,
        >::empty());
    } else {
        let before = rows.drop_last();
        let last = rows.last();
        assert(row_writable(rows[rows.len() - 1].0, rows[rows.len() - 1].1));
        assert forall|i: int| 0 <= i < before.len() implies row_writable(
            #[trigger] before[i].0,
            before[i].1,
        ) by {
            assert(before[i] == rows[i]);
            assert(row_writable(rows[i].0, rows[i].1));
        }
        lemma_rows_text_lines(before);
        lemma_row_reads_back(last.0, last.1);
        let body = row_body(last.0, last.1);
        assert(row_line(last.0, last.1) =~= body.push('\n'));
        lemma_lines_push_line(rows_text(before), body);
        assert(rows.map_values(|row: (u64, Seq<char>)| row_body(row.0, row.1)) =~= before.map_values(
            |row: (u64, Seq<char>)| row_body(row.0, row.1),
        ).push(body));
    }
}

/// The rows the lines of writable rows hold are those rows.
proof fn lemma_bodies_read_back(rows: Seq<(u64, Seq<char>)>)
    requires
        forall|i: int| 0 <= i < rows.len() ==> row_writable(#[trigger] rows[i].0, rows[i].1),
    ensures
        rows_of_lines(rows.map_values(|row: (u64, Seq<char>)| row_body(row.0, row.1))) == rows,
    decreases rows.len(),
{
    let bodies = rows.map_values(|row: (u64, Seq<char>)| row_body(row.0, row.1));
    if rows.len() > 0 {
        let before = rows.drop_last();
        assert forall|i: int| 0 <= i < before.len() implies row_writable(
            #[trigger] before[i].0,
            before[i].1,
        ) by {
            assert(before[i] == rows[i]);
            assert(row_writable(rows[i].0, rows[i].1));
        }
        lemma_bodies_read_back(before);
        assert(row_writable(rows[rows.len() - 1].0, rows[rows.len() - 1].1));
        lemma_row_reads_back(rows.last().0, rows.last().1);
        assert(bodies.drop_last() =~= before.map_values(
            |row: (u64, Seq<char>)| row_body(row.0, row.1),
        ));
        assert(rows_of_lines(bodies) =~= before.push(rows.last()));
        assert(rows =~= before.push(rows.last()));
    } else {
        assert(rows_of_lines(bodies) =~= rows);
    }
}

/// The names the lines of writable rows give are those rows' names, the empty ones left out.
proof fn lemma_bodies_give_names(rows: Seq<(u64, Seq<char>)>)
    requires
        forall|i: int| 0 <= i < rows.len() ==> row_writable(#[trigger] rows[i].0, rows[i].1),
    ensures
        names_in(rows.map_values(|row: (u64, Seq<char>)| row_body(row.0, row.1))) == rows.map_values(
            |row: (u64, Seq<char>)| row.1,
        ).filter(|name: Seq<char>| name.len() > 0),
    decreases rows.len(),
{
    let bodies = rows.map_values(|row: (u64, Seq<char>)| row_body(row.0, row.1));
    let names = rows.map_values(|row: (u64, Seq<char>)| row.1);
    if rows.len() > 0 {
        let before = rows.drop_last();
        assert forall|i: int| 0 <= i < before.len() implies row_writable(
            #[trigger] before[i].0,
            before[i].1,
        ) by {
            assert(before[i] == rows[i]);
            assert(row_writable(rows[i].0, rows[i].1));
        }
        lemma_bodies_give_names(before);
        assert(row_writable(rows[rows.len() - 1].0, rows[rows.len() - 1].1));
        lemma_row_reads_back(rows.last().0, rows.last().1);
        assert(bodies.drop_last() =~= before.map_values(
            |row: (u64, Seq<char>)| row_body(row.0, row.1),
        ));
        assert(names.drop_last() =~= before.map_values(|row: (u64, Seq<char>)| row.1));
        assert(names.last() == rows.last().1);
        assert(names =~= names.drop_last().push(names.last()));
        names.drop_last().lemma_filter_push(names.last(), |name: Seq<char>| name.len() > 0);
    } else {
        assert(names_in(bodies) =~= Seq::<Seq<char>>::empty());
        assert(names.filter(|name: Seq<char>| name.len() > 0) =~= Seq::<Seq<char>>::empty());
    }
}

/// The names read from a file of rows are the names written into it, in order, leaving out
/// any that are empty: for ids with bit 63 clear, and names that hold no line feed and do not
/// end in white space.
pub proof fn law_names_read_back(rows: Seq<(u64, Seq<char>)>)
    requires
        forall|i: int| 0 <= i < rows.len() ==> row_writable(#[trigger] rows[i].0, rows[i].1),
    ensures
        names_in(lines(rows_text(rows))) == rows.map_values(|row: (u64, Seq<char>)| row.1).filter(
            |name: Seq<char>| name.len() > 0,
        ),
{
    lemma_rows_text_lines(rows);
    lemma_bodies_give_names(rows);
}

/// What is written as a file of rows reads back as the same rows, in the same order: for ids
/// with bit 63 clear, and names that hold no line feed and do not end in white space.
pub proof fn law_rows_read_back(rows: Seq<(u64, Seq<char>)>)
    requires
        forall|i: int| 0 <= i < rows.len() ==> row_writable(#[trigger] rows[i].0, rows[i].1),
    ensures
        rows_of_lines(lines(rows_text(rows))) == rows,
{
    lemma_rows_text_lines(rows);
    lemma_bodies_read_back(rows);
}

} // verus!
