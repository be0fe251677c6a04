//! Texts as sequences of characters: lines, fields and numbers.

use crate::grid::{
    lemma_sorted_unique, lists, point, sorted_points, strictly_ordered, Coordinate, Point,
    SparseGrid,
};
use vstd::prelude::*;

verus! {

/// The characters of `s`.
pub fn chars_of(s: &str) -> (v: Vec<char>)
    ensures
        v@ == s@,
{
    broadcast use vstd::string::group_string_axioms;

    let mut v: Vec<char> = Vec::new();
    let ghost all: Seq<char> = s@;
    for c in it: s.chars()
        invariant
            all == it.seq(),
            v@ == all.take(it.index()),
    {
        v.push(c);
    }
    assert(all.take(all.len() as int) == all);
    v
}

/// The first place at or after `from` where `text` holds a line feed, or
/// the length of `text` where there is none.
pub open spec fn line_end(text: Seq<char>, from: int) -> int
    decreases text.len() - from,
{
    if from >= text.len() || text[from] == '\n' {
        from
    } else {
        line_end(text, from + 1)
    }
}

/// `line` without the carriage return at its end, if it has one.
pub open spec fn without_return(line: Seq<char>) -> Seq<char> {
    if line.len() > 0 && line.last() == '\r' {
        line.drop_last()
    } else {
        line
    }
}

/// The lines of `text` from the place `from` on. A line ends before a line
/// feed, or before a carriage return and a line feed; the last line may end
/// with the text. After a line feed at the very end no further line
/// follows.
pub open spec fn lines_from(text: Seq<char>, from: int) -> Seq<Seq<char>>
    decreases text.len() - from,
    via lines_from_ends
{
    if from < 0 || from >= text.len() {
        Seq::empty()
    } else {
        let end = line_end(text, from);
        if end >= text.len() {
            seq![text.subrange(from, text.len() as int)]
        } else {
            seq![without_return(text.subrange(from, end))] + lines_from(text, end + 1)
        }
    }
}

#[via_fn]
proof fn lines_from_ends(text: Seq<char>, from: int) {
    if 0 <= from < text.len() {
        lemma_line_end(text, from);
    }
}

/// The lines of `text`.
pub open spec fn lines_of(text: Seq<char>) -> Seq<Seq<char>> {
    lines_from(text, 0)
}

/// What a list of character vectors holds.
pub open spec fn rows(lines: Seq<Vec<char>>) -> Seq<Seq<char>> {
    Seq::new(lines.len(), |i: int| lines[i]@)
}

/// The end of a line lies between its start and the end of the text.
pub proof fn lemma_line_end(text: Seq<char>, from: int)
    requires
        0 <= from <= text.len(),
    ensures
        from <= line_end(text, from) <= text.len(),
        line_end(text, from) < text.len() ==> text[line_end(text, from)] == '\n',
        forall|i: int| from <= i < line_end(text, from) ==> text[i] != '\n',
    decreases text.len() - from,
{
    if from < text.len() && text[from] != '\n' {
        lemma_line_end(text, from + 1);
    }
}

/// A text has at most as many lines as characters, and no line is longer
/// than the text.
pub proof fn lemma_lines_bounded(text: Seq<char>, from: int)
    requires
        0 <= from <= text.len(),
    ensures
        lines_from(text, from).len() <= text.len() - from,
        forall|i: int|
            0 <= i < lines_from(text, from).len() ==> (#[trigger] lines_from(text, from)[i]).len()
                <= text.len() - from,
    decreases text.len() - from,
{
    if from < text.len() {
        lemma_line_end(text, from);
        let end = line_end(text, from);
        if end < text.len() {
            lemma_lines_bounded(text, end + 1);
            let rest = lines_from(text, end + 1);
            assert forall|i: int| 0 <= i < lines_from(text, from).len() implies (
            #[trigger] lines_from(text, from)[i]).len() <= text.len() - from by {
                if i > 0 {
                    assert(lines_from(text, from)[i] == rest[i - 1]);
                }
            }
        }
    }
}

/// Splits `text` into its lines.
pub fn lines(text: &Vec<char>) -> (v: Vec<Vec<char>>)
    ensures
        rows(v@) == lines_of(text@),
{
    let mut v: Vec<Vec<char>> = Vec::new();
    let mut line: Vec<char> = Vec::new();
    let mut start: usize = 0;
    let mut i: usize = 0;
    proof {
        assert(rows(v@) =~= Seq::<Seq<char>>::empty());
    }
    while i < text.len()
        invariant
            start <= i <= text.len(),
            line@ == text@.subrange(start as int, i as int),
            forall|j: int| start <= j < i ==> text@[j] != '\n',
            rows(v@) + lines_from(text@, start as int) == lines_of(text@),
        decreases text.len() - i,
    {
        let c = text[i];
        if c == '\n' {
            proof {
                lemma_line_end(text@, start as int);
                assert(line_end(text@, start as int) == i) by {
                    if line_end(text@, start as int) < i {
                        assert(text@[line_end(text@, start as int)] == '\n');
                    }
                }
            }
            let n = line.len();
            if n > 0 && line[n - 1] == '\r' {
                line.pop();
            }
            let ghost before = rows(v@);
            let ghost piece = line@;
            v.push(line);
            line = Vec::new();
            proof {
                assert(piece == without_return(text@.subrange(start as int, i as int)));
                assert(rows(v@) =~= before + seq![piece]);
                assert(before + (seq![piece] + lines_from(text@, i + 1)) =~= (before + seq![
                    piece,
                ]) + lines_from(text@, i + 1));
                assert(line@ =~= text@.subrange(i + 1, i + 1));
            }
            start = i + 1;
        } else {
            line.push(c);
            proof {
                assert(line@ =~= text@.subrange(start as int, i + 1));
            }
        }
        i += 1;
    }
    if start < text.len() {
        proof {
            lemma_line_end(text@, start as int);
            assert(line_end(text@, start as int) == text@.len()) by {
                if line_end(text@, start as int) < text@.len() {
                    assert(text@[line_end(text@, start as int)] == '\n');
                }
            }
        }
        let ghost before = rows(v@);
        let ghost piece = line@;
        v.push(line);
        proof {
            assert(rows(v@) =~= before + seq![piece]);
        }
    } else {
        proof {
            assert(rows(v@) + Seq::<Seq<char>>::empty() =~= rows(v@));
        }
    }
    v
}

/// The characters of `text` from the place `from` up to the place `to`.
pub fn slice(text: &Vec<char>, from: usize, to: usize) -> (piece: Vec<char>)
    requires
        from <= to <= text.len(),
    ensures
        piece@ == text@.subrange(from as int, to as int),
{
    let mut piece: Vec<char> = Vec::new();
    let mut i: usize = from;
    while i < to
        invariant
            from <= i <= to <= text.len(),
            piece@ == text@.subrange(from as int, i as int),
        decreases to - i,
    {
        piece.push(text[i]);
        proof {
            assert(piece@ =~= text@.subrange(from as int, i + 1));
        }
        i += 1;
    }
    piece
}

/// Whether `pat` stands in `text` at the place `at`.
pub open spec fn stands_at(text: Seq<char>, pat: Seq<char>, at: int) -> bool {
    0 <= at && at + pat.len() <= text.len() && text.subrange(at, at + pat.len()) == pat
}

/// Whether `text` begins with `pat`.
pub open spec fn begins_with(text: Seq<char>, pat: Seq<char>) -> bool {
    stands_at(text, pat, 0)
}

/// The first place at or after `from` where `pat` stands in `text`, or the
/// length of `text` where it stands nowhere.
pub open spec fn first_at(text: Seq<char>, pat: Seq<char>, from: int) -> int
    decreases text.len() - from,
{
    if from < 0 || from >= text.len() {
        text.len() as int
    } else if stands_at(text, pat, from) {
        from
    } else {
        first_at(text, pat, from + 1)
    }
}

/// `text` cut in two at the first place where `pat` stands in it, without
/// `pat` itself; `None` where `pat` stands nowhere.
pub open spec fn cut_once(text: Seq<char>, pat: Seq<char>) -> Option<(Seq<char>, Seq<char>)> {
    let at = first_at(text, pat, 0);
    if at >= text.len() {
        None
    } else {
        Some((text.take(at), text.skip(at + pat.len())))
    }
}

/// The first place where a pattern stands lies in the text, the pattern
/// stands there, and it stands nowhere before.
pub proof fn lemma_first_at(text: Seq<char>, pat: Seq<char>, from: int)
    requires
        0 <= from <= text.len(),
    ensures
        from <= first_at(text, pat, from) <= text.len(),
        first_at(text, pat, from) < text.len() ==> stands_at(
            text,
            pat,
            first_at(text, pat, from),
        ),
        forall|i: int| from <= i < first_at(text, pat, from) ==> !stands_at(text, pat, i),
    decreases text.len() - from,
{
    if from < text.len() && !stands_at(text, pat, from) {
        lemma_first_at(text, pat, from + 1);
    }
}

/// Whether `pat` stands in `text` at the place `at`.
pub fn matches_at(text: &Vec<char>, pat: &Vec<char>, at: usize) -> (b: bool)
    ensures
        b == stands_at(text@, pat@, at as int),
{
    if at > text.len() || pat.len() > text.len() - at {
        return false;
    }
    let mut i: usize = 0;
    while i < pat.len()
        invariant
            i <= pat.len(),
            at + pat.len() <= text.len(),
            forall|j: int| 0 <= j < i ==> text@[at + j] == pat@[j],
        decreases pat.len() - i,
    {
        if text[at + i] != pat[i] {
            assert(text@.subrange(at as int, at + pat.len())[i as int] != pat@[i as int]);
            return false;
        }
        i += 1;
    }
    assert(text@.subrange(at as int, at + pat.len()) =~= pat@);
    true
}

/// Whether `text` begins with `pat`.
pub fn starts_with(text: &Vec<char>, pat: &Vec<char>) -> (b: bool)
    ensures
        b == begins_with(text@, pat@),
{
    matches_at(text, pat, 0)
}

/// Cuts `text` in two at the first place where `pat` stands in it.
pub fn split_once(text: &Vec<char>, pat: &Vec<char>) -> (r: Option<(Vec<char>, Vec<char>)>)
    ensures
        match r {
            Some((left, right)) => cut_once(text@, pat@) == Some((left@, right@)),
            None => cut_once(text@, pat@) is None,
        },
{
    let mut at: usize = 0;
    while at < text.len()
        invariant
            at <= text.len(),
            first_at(text@, pat@, 0) == first_at(text@, pat@, at as int),
        decreases text.len() - at,
    {
        if matches_at(text, pat, at) {
            let left = slice(text, 0, at);
            let right = slice(text, at + pat.len(), text.len());
            assert(text@.take(at as int) =~= text@.subrange(0, at as int));
            assert(text@.skip(at + pat.len()) =~= text@.subrange(
                at + pat.len(),
                text@.len() as int,
            ));
            return Some((left, right));
        }
        at += 1;
    }
    None
}

/// The pieces of `text` between the characters `sep`. A text with `n`
/// separators has `n + 1` pieces, some of which may be empty.
pub open spec fn pieces_of(text: Seq<char>, sep: char) -> Seq<Seq<char>>
    decreases text.len(),
    via pieces_of_ends
{
    let at = first_at(text, seq![sep], 0);
    if at >= text.len() {
        seq![text]
    } else {
        seq![text.take(at)] + pieces_of(text.skip(at + 1), sep)
    }
}

#[via_fn]
proof fn pieces_of_ends(text: Seq<char>, sep: char) {
    lemma_first_at(text, seq![sep], 0);
}

/// Cuts `text` into the pieces between the characters `sep`.
pub fn split(text: &Vec<char>, sep: char) -> (v: Vec<Vec<char>>)
    ensures
        rows(v@) == pieces_of(text@, sep),
{
    let mut v: Vec<Vec<char>> = Vec::new();
    let mut start: usize = 0;
    let mut i: usize = 0;
    proof {
        assert(rows(v@) =~= Seq::<Seq<char>>::empty());
        assert(text@.skip(0) =~= text@);
    }
    while i < text.len()
        invariant
            start <= i <= text.len(),
            forall|j: int| start <= j < i ==> text@[j] != sep,
            rows(v@) + pieces_of(text@.skip(start as int), sep) == pieces_of(text@, sep),
        decreases text.len() - i,
    {
        if text[i] == sep {
            let piece = slice(text, start, i);
            let ghost before = rows(v@);
            let ghost tail = text@.skip(start as int);
            proof {
                lemma_first_at(tail, seq![sep], 0);
                let at = first_at(tail, seq![sep], 0);
                assert(stands_at(tail, seq![sep], i - start)) by {
                    assert(tail.subrange(i - start, i - start + 1) =~= seq![sep]);
                }
                assert(at == i - start) by {
                    if at < i - start {
                        assert(stands_at(tail, seq![sep], at));
                        assert(tail.subrange(at, at + 1)[0] == sep);
                        assert(text@[start + at] == sep);
                    }
                }
                assert(tail.take(at) =~= piece@);
                assert(tail.skip(at + 1) =~= text@.skip(i + 1));
            }
            v.push(piece);
            proof {
                assert(rows(v@) =~= before + seq![tail.take(i - start)]);
                assert(before + (seq![tail.take(i - start)] + pieces_of(text@.skip(i + 1), sep))
                    =~= (before + seq![tail.take(i - start)]) + pieces_of(text@.skip(i + 1), sep));
            }
            start = i + 1;
        }
        i += 1;
    }
    let piece = slice(text, start, text.len());
    let ghost before = rows(v@);
    proof {
        let tail = text@.skip(start as int);
        lemma_first_at(tail, seq![sep], 0);
        let at = first_at(tail, seq![sep], 0);
        assert(at >= tail.len()) by {
            if at < tail.len() {
                assert(stands_at(tail, seq![sep], at));
                assert(tail.subrange(at, at + 1)[0] == sep);
                assert(text@[start + at] == sep);
            }
        }
        assert(tail =~= piece@);
    }
    v.push(piece);
    proof {
        assert(rows(v@) =~= before + seq![piece@]);
    }
    v
}

/// Whether `c` is one of the digits `0` to `9`.
pub open spec fn is_digit(c: char) -> bool {
    '0' <= c <= '9'
}

/// The value of the digit `c`.
pub open spec fn digit_value(c: char) -> nat {
    (c as u32 - '0' as u32) as nat
}

/// Whether `s` is made of digits, at least one.
pub open spec fn is_number(s: Seq<char>) -> bool {
    s.len() > 0 && forall|i: int| 0 <= i < s.len() ==> is_digit(#[trigger] s[i])
}

/// The number that the digits `s` write.
pub open spec fn number_value(s: Seq<char>) -> nat
    decreases s.len(),
{
    if s.len() == 0 {
        0
    } else {
        number_value(s.drop_last()) * 10 + digit_value(s.last())
    }
}

/// The number that `s` writes, where `s` is made of digits, with or without
/// a plus sign before them, and the number is at most `max`.
pub open spec fn unsigned_of(s: Seq<char>, max: nat) -> Option<nat> {
    let body = if s.len() > 0 && s[0] == '+' {
        s.skip(1)
    } else {
        s
    };
    if is_number(body) && number_value(body) <= max {
        Some(number_value(body))
    } else {
        None
    }
}

/// The number that `s` writes, where `s` is made of digits, with or without
/// a sign before them, and the number lies between `min` and `max`.
pub open spec fn signed_of(s: Seq<char>, min: int, max: int) -> Option<int> {
    let negative = s.len() > 0 && s[0] == '-';
    let body = if s.len() > 0 && (s[0] == '+' || s[0] == '-') {
        s.skip(1)
    } else {
        s
    };
    let value = if negative {
        -(number_value(body) as int)
    } else {
        number_value(body) as int
    };
    if is_number(body) && min <= value <= max {
        Some(value)
    } else {
        None
    }
}

/// The number written by the first digits is at most the number written by
/// all.
pub proof fn lemma_number_grows(s: Seq<char>, n: int)
    requires
        0 <= n <= s.len(),
    ensures
        number_value(s.take(n)) <= number_value(s),
    decreases s.len(),
{
    if n == s.len() {
        assert(s.take(n) =~= s);
    } else {
        lemma_number_grows(s.drop_last(), n);
        assert(s.drop_last().take(n) =~= s.take(n));
    }
}

/// The number that the digits of `text` from the place `from` on write,
/// where there is at least one and all are digits, and the number is at most
/// `max`.
pub fn parse_digits(text: &Vec<char>, from: usize, max: u64) -> (r: Option<u64>)
    requires
        from <= text.len(),
    ensures
        r == (if is_number(text@.skip(from as int)) && number_value(text@.skip(from as int))
            <= max {
            Some(number_value(text@.skip(from as int)) as u64)
        } else {
            None
        }),
{
    let ghost body = text@.skip(from as int);
    if from == text.len() {
        return None;
    }
    let mut value: u64 = 0;
    let mut i: usize = from;
    assert(body.take(0) =~= Seq::<char>::empty());
    while i < text.len()
        invariant
            from <= i <= text.len(),
            body == text@.skip(from as int),
            forall|j: int| 0 <= j < i - from ==> is_digit(#[trigger] body[j]),
            value == number_value(body.take(i - from)),
            value <= max,
        decreases text.len() - i,
    {
        let c = text[i];
        assert(body[i - from] == c);
        if c < '0' || c > '9' {
            return None;
        }
        let digit = (c as u32 - '0' as u32) as u64;
        proof {
            assert(body.take(i - from + 1).drop_last() =~= body.take(i - from));
            assert(body.take(i - from + 1).last() == c);
            lemma_number_grows(body, i - from + 1);
        }
        value = match value.checked_mul(10) {
            Some(value) => value,
            None => {
                return None;
            },
        };
        value = match value.checked_add(digit) {
            Some(value) => value,
            None => {
                return None;
            },
        };
        if value > max {
            return None;
        }
        i += 1;
    }
    assert(body.take(i - from) =~= body);
    Some(value)
}

/// The unsigned number that `text` writes, as the standard library reads
/// one: digits, with or without a plus sign before them.
pub fn parse_unsigned(text: &Vec<char>, max: u64) -> (r: Option<u64>)
    ensures
        match r {
            Some(v) => unsigned_of(text@, max as nat) == Some(v as nat),
            None => unsigned_of(text@, max as nat) is None,
        },
{
    let from: usize = if text.len() > 0 && text[0] == '+' {
        1
    } else {
        0
    };
    assert(text@.skip(0) =~= text@);
    parse_digits(text, from, max)
}

/// The signed number that `text` writes, as the standard library reads one:
/// digits, with or without a sign before them.
pub fn parse_signed(text: &Vec<char>, min: i64, max: i64) -> (r: Option<i64>)
    requires
        min <= 0 <= max,
    ensures
        match r {
            Some(v) => signed_of(text@, min as int, max as int) == Some(v as int),
            None => signed_of(text@, min as int, max as int) is None,
        },
{
    let negative = text.len() > 0 && text[0] == '-';
    let from: usize = if text.len() > 0 && (text[0] == '+' || text[0] == '-') {
        1
    } else {
        0
    };
    assert(text@.skip(0) =~= text@);
    let bound: u64 = if negative {
        if min == i64::MIN {
            0x8000_0000_0000_0000
        } else {
            (-min) as u64
        }
    } else {
        max as u64
    };
    match parse_digits(text, from, bound) {
        Some(v) => if negative {
            if v == 0x8000_0000_0000_0000 {
                Some(i64::MIN)
            } else {
                Some(-(v as i64))
            }
        } else {
            Some(v as i64)
        },
        None => None,
    }
}

/// The numbers that the pieces of `line` between the characters `sep`
/// write, where each piece writes a number between `min` and `max`.
pub open spec fn signed_list_of(line: Seq<char>, sep: char, min: int, max: int) -> Option<Seq<int>> {
    let pieces = pieces_of(line, sep);
    if forall|i: int| 0 <= i < pieces.len() ==> signed_of(#[trigger] pieces[i], min, max) is Some {
        Some(Seq::new(pieces.len(), |i: int| signed_of(pieces[i], min, max)->0))
    } else {
        None
    }
}

/// The numbers without sign that the pieces of `line` between the
/// characters `sep` write, where each piece writes a number up to `max`.
pub open spec fn unsigned_list_of(line: Seq<char>, sep: char, max: nat) -> Option<Seq<nat>> {
    let pieces = pieces_of(line, sep);
    if forall|i: int| 0 <= i < pieces.len() ==> unsigned_of(#[trigger] pieces[i], max) is Some {
        Some(Seq::new(pieces.len(), |i: int| unsigned_of(pieces[i], max)->0))
    } else {
        None
    }
}

/// Reads the numbers that stand in `line` between the characters `sep`.
pub fn parse_signed_list(line: &Vec<char>, sep: char, min: i64, max: i64) -> (r: Option<Vec<i64>>)
    requires
        min <= 0 <= max,
    ensures
        match r {
            Some(v) => signed_list_of(line@, sep, min as int, max as int) matches Some(list)
                && v@.len() == list.len() && forall|i: int|
                0 <= i < list.len() ==> #[trigger] v@[i] as int == list[i],
            None => signed_list_of(line@, sep, min as int, max as int) is None,
        },
{
    let pieces = split(line, sep);
    let mut v: Vec<i64> = Vec::new();
    let mut i: usize = 0;
    while i < pieces.len()
        invariant
            i <= pieces.len(),
            min <= 0 <= max,
            rows(pieces@) == pieces_of(line@, sep),
            v@.len() == i,
            forall|k: int|
                0 <= k < i ==> signed_of(#[trigger] rows(pieces@)[k], min as int, max as int)
                    == Some(v@[k] as int),
        decreases pieces.len() - i,
    {
        assert(rows(pieces@)[i as int] == pieces@[i as int]@);
        match parse_signed(&pieces[i], min, max) {
            Some(n) => {
                v.push(n);
            },
            None => {
                return None;
            },
        }
        i += 1;
    }
    proof {
        let list = signed_list_of(line@, sep, min as int, max as int);
        assert(list is Some);
        assert forall|k: int| 0 <= k < list->0.len() implies #[trigger] v@[k] as int == list->0[k] by {
            assert(signed_of(rows(pieces@)[k], min as int, max as int) == Some(v@[k] as int));
        }
    }
    Some(v)
}

/// Reads the numbers without sign that stand in `line` between the
/// characters `sep`.
pub fn parse_unsigned_list(line: &Vec<char>, sep: char, max: u64) -> (r: Option<Vec<u64>>)
    ensures
        match r {
            Some(v) => unsigned_list_of(line@, sep, max as nat) matches Some(list) && v@.len()
                == list.len() && forall|i: int|
                0 <= i < list.len() ==> #[trigger] v@[i] as nat == list[i],
            None => unsigned_list_of(line@, sep, max as nat) is None,
        },
{
    let pieces = split(line, sep);
    let mut v: Vec<u64> = Vec::new();
    let mut i: usize = 0;
    while i < pieces.len()
        invariant
            i <= pieces.len(),
            rows(pieces@) == pieces_of(line@, sep),
            v@.len() == i,
            forall|k: int|
                0 <= k < i ==> unsigned_of(#[trigger] rows(pieces@)[k], max as nat) == Some(
                    v@[k] as nat,
                ),
        decreases pieces.len() - i,
    {
        assert(rows(pieces@)[i as int] == pieces@[i as int]@);
        match parse_unsigned(&pieces[i], max) {
            Some(n) => {
                v.push(n);
            },
            None => {
                return None;
            },
        }
        i += 1;
    }
    proof {
        let list = unsigned_list_of(line@, sep, max as nat);
        assert(list is Some);
        assert forall|k: int| 0 <= k < list->0.len() implies #[trigger] v@[k] as nat == list->0[k] by {
            assert(unsigned_of(rows(pieces@)[k], max as nat) == Some(v@[k] as nat));
        }
    }
    Some(v)
}

/// The grid that a text describes: the character at place `c` of line `r`
/// is the label of the cell `(r, c)`.
pub open spec fn cells_of(lines: Seq<Seq<char>>) -> Map<Point, char> {
    Map::new(
        |p: Point| 0 <= p.0 < lines.len() && 0 <= p.1 < lines[p.0].len(),
        |p: Point| lines[p.0][p.1],
    )
}

/// Reads a grid of characters from a text, one line for each row.
pub fn char_grid(input: &str) -> (map: SparseGrid<char>)
    requires
        input@.len() <= i32::MAX,
    ensures
        map@ == cells_of(lines_of(input@)),
{
    let text = chars_of(input);
    let all = lines(&text);
    proof {
        lemma_lines_bounded(text@, 0);
    }
    let mut map: SparseGrid<char> = SparseGrid::new();
    let mut row: usize = 0;
    proof {
        assert(map@ =~= cells_of(rows(all@).take(0)));
    }
    while row < all.len()
        invariant
            row <= all.len(),
            all@.len() <= i32::MAX,
            forall|i: int| 0 <= i < all@.len() ==> (#[trigger] rows(all@)[i]).len() <= i32::MAX,
            map@ == cells_of(rows(all@).take(row as int)),
        decreases all.len() - row,
    {
        let line = &all[row];
        let ghost done = rows(all@).take(row as int);
        let mut col: usize = 0;
        assert(rows(all@)[row as int] == line@);
        proof {
            assert(map@ =~= cells_of(done.push(line@.take(0))));
        }
        while col < line.len()
            invariant
                col <= line.len(),
                row < all.len(),
                row <= i32::MAX,
                line@.len() <= i32::MAX,
                done.len() == row,
                map@ == cells_of(done.push(line@.take(col as int))),
            decreases line.len() - col,
        {
            let ghost before = map@;
            map.insert((row as i32, col as i32), line[col]);
            proof {
                let here = (row as int, col as int);
                let now = done.push(line@.take(col + 1));
                let was = done.push(line@.take(col as int));
                assert(map@ =~= cells_of(now)) by {
                    assert forall|p: Point| map@.contains_key(p) <==> cells_of(now).contains_key(
                        p,
                    ) by {
                        if p.0 == row {
                            assert(now[p.0] == line@.take(col + 1));
                            assert(was[p.0] == line@.take(col as int));
                        } else if 0 <= p.0 < row {
                            assert(now[p.0] == was[p.0]);
                        }
                    }
                    assert forall|p: Point| map@.contains_key(p) implies map@[p] == cells_of(
                        now,
                    )[p] by {
                        if p.0 == row {
                            assert(now[p.0] == line@.take(col + 1));
                            assert(was[p.0] == line@.take(col as int));
                        } else if 0 <= p.0 < row {
                            assert(now[p.0] == was[p.0]);
                        }
                    }
                }
            }
            col += 1;
        }
        proof {
            assert(line@.take(line@.len() as int) =~= line@);
            assert(done.push(line@) =~= rows(all@).take(row + 1));
        }
        row += 1;
    }
    proof {
        assert(rows(all@).take(all@.len() as int) =~= rows(all@));
    }
    map
}


/// The last of the first `n` positions of `list` at which `cells` holds the
/// character `ch`.
pub open spec fn last_in(cells: Map<Point, char>, list: Seq<Coordinate>, ch: char, n: int) -> Option<
    Coordinate,
>
    decreases n,
{
    if n <= 0 {
        None
    } else if cells.contains_key(point(list[n - 1])) && cells[point(list[n - 1])] == ch {
        Some(list[n - 1])
    } else {
        last_in(cells, list, ch, n - 1)
    }
}

/// The last position in row-major order at which `cells` holds the
/// character `ch`.
pub open spec fn last_of(cells: Map<Point, char>, ch: char) -> Option<Coordinate> {
    let list = sorted_points(cells.dom());
    last_in(cells, list, ch, list.len() as int)
}

/// Finds the last position in row-major order at which `cells` holds the
/// character `ch`.
pub fn find_last(cells: &SparseGrid<char>, ch: char) -> (at: Option<Coordinate>)
    ensures
        at == last_of(cells@, ch),
{
    let list = cells.coordinates();
    proof {
        let other = sorted_points(cells@.dom());
        assert(strictly_ordered(other) && lists(other, cells@.dom()));
        lemma_sorted_unique(list@, other, cells@.dom());
    }
    let mut at: Option<Coordinate> = None;
    let mut i: usize = 0;
    while i < list.len()
        invariant
            i <= list.len(),
            at == last_in(cells@, list@, ch, i as int),
        decreases list.len() - i,
    {
        match cells.get(list[i]) {
            Some(c) => {
                if c == ch {
                    at = Some(list[i]);
                }
            },
            None => {},
        }
        i += 1;
    }
    at
}

/// The number of lines of `lines` before the first empty one: the height
/// of what stands before the first blank line.
pub open spec fn map_height(lines: Seq<Seq<char>>) -> int
    decreases lines.len(),
{
    if lines.len() == 0 {
        0
    } else if map_height(lines.drop_last()) < lines.len() - 1 {
        map_height(lines.drop_last())
    } else if lines.last().len() == 0 {
        lines.len() - 1
    } else {
        lines.len() as int
    }
}

/// The number of lines before the first empty one.
pub fn find_height(all: &Vec<Vec<char>>) -> (height: usize)
    ensures
        height == map_height(rows(all@)),
        height <= all@.len(),
{
    let mut i: usize = 0;
    assert(rows(all@).take(0) =~= Seq::<Seq<char>>::empty());
    while i < all.len()
        invariant
            i <= all.len(),
            map_height(rows(all@).take(i as int)) == i,
        decreases all.len() - i,
    {
        let ghost upto = rows(all@).take(i + 1);
        assert(upto.drop_last() =~= rows(all@).take(i as int));
        assert(upto.last() == all@[i as int]@);
        if all[i].len() == 0 {
            proof {
                lemma_height_stays(rows(all@), i + 1);
            }
            return i;
        }
        i += 1;
    }
    assert(rows(all@).take(i as int) =~= rows(all@));
    i
}

/// Once an empty line has been met, further lines do not change the height
/// of the map.
pub proof fn lemma_height_stays(lines: Seq<Seq<char>>, n: int)
    requires
        0 <= n <= lines.len(),
        map_height(lines.take(n)) < n,
    ensures
        map_height(lines) == map_height(lines.take(n)),
    decreases lines.len(),
{
    if n == lines.len() {
        assert(lines.take(n) =~= lines);
    } else {
        assert(lines.drop_last().take(n) =~= lines.take(n));
        lemma_height_stays(lines.drop_last(), n);
    }
}

} // verus!
