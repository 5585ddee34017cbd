//! Searching and reading text.

use vstd::prelude::*;

verus! {

/// Whether `needle` stands in `text` at `i`.
pub open spec fn occurs_at(text: Seq<char>, needle: Seq<char>, i: int) -> bool {
    0 <= i && i + needle.len() <= text.len() && text.subrange(i, i + needle.len()) == needle
}

/// The first place from `from` on at which `needle` stands in `text`.
pub open spec fn find_from(text: Seq<char>, needle: Seq<char>, from: int) -> Option<int>
    decreases text.len() + 1 - from,
{
    if from + needle.len() > text.len() {
        None
    } else if occurs_at(text, needle, from) {
        Some(from)
    } else {
        find_from(text, needle, from + 1)
    }
}

/// The first place at which `needle` stands in `text`.
pub open spec fn find(text: Seq<char>, needle: Seq<char>) -> Option<int> {
    find_from(text, needle, 0)
}

/// Whether `needle` stands anywhere in `text`.
pub open spec fn occurs(text: Seq<char>, needle: Seq<char>) -> bool {
    find(text, needle) is Some
}

/// What is found is the first occurrence: the needle stands there and at no place before, and
/// where nothing is found, it stands at no place at all.
pub proof fn law_find_from(text: Seq<char>, needle: Seq<char>, from: int)
    requires
        0 <= from,
    ensures
        match find_from(text, needle, from) {
            Some(i) => {
                &&& from <= i
                &&& occurs_at(text, needle, i)
                &&& forall|j: int| from <= j < i ==> !#[trigger] occurs_at(text, needle, j)
            },
            None => forall|j: int| from <= j ==> !#[trigger] occurs_at(text, needle, j),
        },
    decreases text.len() + 1 - from,
{
    if from + needle.len() <= text.len() && !occurs_at(text, needle, from) {
        law_find_from(text, needle, from + 1);
    }
}

/// The characters of a string.
pub fn chars_of(s: &str) -> (chars: Vec<char>)
    ensures
        chars@ == s@,
{
    let mut chars: Vec<char> = Vec::new();
    for c in it: s.chars()
        invariant
            it.seq() == s@,
            chars@ == s@.take(it.index()),
    {
        chars.push(c);
        assert(chars@ =~= s@.take(it.index() + 1));
    }
    assert(chars@ =~= s@);
    chars
}

/// Appends a character to a string, as `String::push` does: the string then holds its characters
/// from before, and the new one behind them.
pub assume_specification[ String::push ](s: &mut String, c: char)
    ensures
        final(s)@ == old(s)@.push(c),
;

/// The string of the given characters.
pub fn string_of(chars: &Vec<char>) -> (s: String)
    ensures
        s@ == chars@,
{
    let mut s: String = String::new();
    let mut i: usize = 0;
    assert(chars@.take(0) =~= Seq::<char>::empty());
    while i < chars.len()
        invariant
            i <= chars@.len(),
            s@ == chars@.take(i as int),
        decreases chars@.len() - i,
    {
        s.push(chars[i]);
        assert(s@ =~= chars@.take(i + 1));
        i = i + 1;
    }
    assert(chars@.take(i as int) =~= chars@);
    s
}

/// Whether `needle` stands in `text` at `i`.
pub fn is_at(text: &Vec<char>, needle: &Vec<char>, i: usize) -> (found: bool)
    requires
        i + needle@.len() <= text@.len(),
    ensures
        found == occurs_at(text@, needle@, i as int),
{
    let ghost part = text@.subrange(i as int, i + needle@.len());
    assert(text.len() == text@.len());
    let mut j: usize = 0;
    while j < needle.len()
        invariant
            j <= needle@.len(),
            i + needle@.len() <= text@.len() <= usize::MAX,
            part == text@.subrange(i as int, i + needle@.len()),
            forall|l: int| 0 <= l < j ==> part[l] == needle@[l],
        decreases needle@.len() - j,
    {
        if text[i + j] != needle[j] {
            assert(part[j as int] != needle@[j as int]);
            return false;
        }
        j = j + 1;
    }
    assert(part =~= needle@);
    true
}

/// The first place from `from` on at which `needle` stands in `text`.
pub fn find_text(text: &Vec<char>, needle: &Vec<char>, from: usize) -> (place: Option<usize>)
    ensures
        match place {
            Some(i) => find_from(text@, needle@, from as int) == Some(i as int) && from <= i && i
                + needle@.len() <= text@.len(),
            None => find_from(text@, needle@, from as int) is None,
        },
{
    assert(text.len() == text@.len());
    assert(needle.len() == needle@.len());
    let mut i: usize = from;
    while i <= text.len() && needle.len() <= text.len() - i
        invariant
            from <= i,
            text@.len() <= usize::MAX,
            find_from(text@, needle@, from as int) == find_from(text@, needle@, i as int),
        decreases text@.len() + 1 - i,
    {
        if is_at(text, needle, i) {
            return Some(i);
        }
        if i == text.len() {
            assert(find_from(text@, needle@, i + 1) is None);
            return None;
        }
        i = i + 1;
    }
    None
}

/// Whether `needle` stands anywhere in `text`.
pub fn has_text(text: &Vec<char>, needle: &Vec<char>) -> (found: bool)
    ensures
        found == occurs(text@, needle@),
{
    find_text(text, needle, 0).is_some()
}

/// The part of `text` from `from` to `to`.
pub fn part_of(text: &Vec<char>, from: usize, to: usize) -> (part: Vec<char>)
    requires
        from <= to <= text@.len(),
    ensures
        part@ == text@.subrange(from as int, to as int),
{
    let mut part: Vec<char> = Vec::new();
    let mut i: usize = from;
    while i < to
        invariant
            from <= i <= to <= text@.len(),
            part@ == text@.subrange(from as int, i as int),
        decreases to - i,
    {
        part.push(text[i]);
        assert(part@ =~= text@.subrange(from as int, i + 1));
        i = i + 1;
    }
    part
}

/// Whether two texts are the same.
pub fn same_text(a: &Vec<char>, b: &Vec<char>) -> (same: bool)
    ensures
        same == (a@ == b@),
{
    if a.len() != b.len() {
        return false;
    }
    let same: bool = is_at(a, b, 0);
    assert(a@.subrange(0, b@.len() as int) =~= a@);
    same
}

/// Whether a string is the given one.
pub fn is_text(s: &str, expected: &str) -> (same: bool)
    ensures
        same == (s@ == expected@),
{
    same_text(&chars_of(s), &chars_of(expected))
}

/// `first`, and `second` behind it.
pub fn joined(first: &Vec<char>, second: &Vec<char>) -> (whole: Vec<char>)
    ensures
        whole@ == first@ + second@,
{
    let mut whole: Vec<char> = part_of(first, 0, first.len());
    let mut rest: Vec<char> = part_of(second, 0, second.len());
    whole.append(&mut rest);
    assert(whole@ =~= first@ + second@);
    whole
}

/// The length of the first line of `text`, without its line feed.
pub open spec fn line_len(text: Seq<char>) -> nat
    decreases text.len(),
{
    if text.len() == 0 || text[0] == '\n' {
        0
    } else {
        1 + line_len(text.skip(1))
    }
}

/// `line` without a carriage return at its end.
pub open spec fn without_cr(line: Seq<char>) -> Seq<char> {
    if line.len() > 0 && line.last() == '\r' {
        line.drop_last()
    } else {
        line
    }
}

pub proof fn lemma_line_len(text: Seq<char>)
    ensures
        line_len(text) <= text.len(),
        forall|i: int| 0 <= i < line_len(text) ==> #[trigger] text[i] != '\n',
        line_len(text) < text.len() ==> text[line_len(text) as int] == '\n',
    decreases text.len(),
{
    if text.len() > 0 && text[0] != '\n' {
        let rest = text.skip(1);
        lemma_line_len(rest);
        assert forall|i: int| 0 <= i < line_len(text) implies #[trigger] text[i] != '\n' by {
            if i > 0 {
                assert(rest[i - 1] == text[i]);
            }
        }
    }
}

/// The lines of `text`. A line ends with a line feed, or a carriage return and a line feed, that
/// do not belong to it; the last line may end without.
pub open spec fn lines_of(text: Seq<char>) -> Seq<Seq<char>>
    decreases text.len(),
{
    if text.len() == 0 {
        Seq::empty()
    } else {
        let n = line_len(text) as int;
        if n < text.len() {
            seq![without_cr(text.take(n))] + lines_of(text.skip(n + 1))
        } else {
            seq![text]
        }
    }
}

/// The contents of several texts.
pub open spec fn texts(list: Seq<Vec<char>>) -> Seq<Seq<char>> {
    Seq::new(list.len(), |i: int| list[i]@)
}

/// The lines of `text`.
pub fn split_lines(text: &Vec<char>) -> (lines: Vec<Vec<char>>)
    ensures
        texts(lines@) == lines_of(text@),
{
    let mut lines: Vec<Vec<char>> = Vec::new();
    let mut start: usize = 0;
    assert(text@.skip(0) =~= text@);
    assert(texts(lines@) + lines_of(text@) =~= lines_of(text@));
    while start < text.len()
        invariant
            start <= text@.len(),
            texts(lines@) + lines_of(text@.skip(start as int)) == lines_of(text@),
        decreases text@.len() - start,
    {
        let ghost rest = text@.skip(start as int);
        let ghost before = lines@;
        proof {
            lemma_line_len(rest);
        }
        let mut end: usize = start;
        while end < text.len() && text[end] != '\n'
            invariant
                start <= end <= text@.len(),
                rest == text@.skip(start as int),
                forall|i: int| 0 <= i < end - start ==> #[trigger] rest[i] != '\n',
            decreases text@.len() - end,
        {
            assert(rest[end - start] == text@[end as int]);
            end = end + 1;
        }
        let ghost n = line_len(rest) as int;
        assert(end - start == n) by {
            if end - start < n {
                assert(rest[end - start] != '\n');
            } else if n < end - start {
                assert(rest[n] != '\n');
            }
        }
        if end < text.len() {
            let stop: usize = if end > start && text[end - 1] == '\r' {
                end - 1
            } else {
                end
            };
            let line: Vec<char> = part_of(text, start, stop);
            assert(line@ =~= without_cr(rest.take(n)));
            lines.push(line);
            assert(texts(lines@) =~= texts(before).push(line@));
            assert(rest.skip(n + 1) =~= text@.skip(end + 1));
            assert(texts(lines@) + lines_of(text@.skip(end + 1)) =~= texts(before) + lines_of(
                rest,
            ));
            start = end + 1;
        } else {
            let line: Vec<char> = part_of(text, start, end);
            assert(line@ =~= rest);
            lines.push(line);
            assert(texts(lines@) =~= texts(before).push(line@));
            assert(text@.skip(end as int) =~= Seq::<char>::empty());
            assert(texts(lines@) + lines_of(text@.skip(end as int)) =~= texts(before) + lines_of(
                rest,
            ));
            start = end;
        }
    }
    assert(text@.skip(start as int) =~= Seq::<char>::empty());
    assert(texts(lines@) =~= lines_of(text@));
    lines
}

/// Whether all of `text` are decimal digits.
pub open spec fn all_digits(text: Seq<char>) -> bool {
    forall|i: int| 0 <= i < text.len() ==> '0' <= #[trigger] text[i] <= '9'
}

/// The number that a text of decimal digits stands for.
pub open spec fn digits_value(text: Seq<char>) -> nat
    decreases text.len(),
{
    if text.len() == 0 {
        0
    } else {
        (digits_value(text.drop_last()) * 10 + (text.last() as int - '0' as int)) as nat
    }
}

/// The number that `text` stands for: decimal digits, which a plus sign may precede, and of which
/// there is one at least, for a number that fits in a machine integer.
pub open spec fn parsed_number(text: Seq<char>) -> Option<usize> {
    let digits = if text.len() > 0 && text[0] == '+' {
        text.skip(1)
    } else {
        text
    };
    if digits.len() > 0 && all_digits(digits) && digits_value(digits) <= usize::MAX {
        Some(digits_value(digits) as usize)
    } else {
        None
    }
}

proof fn lemma_digits_grow(text: Seq<char>, n: int)
    requires
        0 <= n <= text.len(),
        all_digits(text),
    ensures
        digits_value(text.take(n)) <= digits_value(text),
    decreases text.len() - n,
{
    if n < text.len() {
        lemma_digits_grow(text, n + 1);
        let longer = text.take(n + 1);
        assert(longer.drop_last() =~= text.take(n));
        assert(longer.last() == text[n]);
    } else {
        assert(text.take(n) =~= text);
    }
}

/// Reads a number.
pub fn parse_number(text: &Vec<char>) -> (number: Option<usize>)
    ensures
        number == parsed_number(text@),
{
    let start: usize = if text.len() > 0 && text[0] == '+' {
        1
    } else {
        0
    };
    let ghost digits = if text@.len() > 0 && text@[0] == '+' {
        text@.skip(1)
    } else {
        text@
    };
    assert(digits =~= text@.skip(start as int));
    if start == text.len() {
        return None;
    }
    let mut value: usize = 0;
    let mut i: usize = start;
    assert(digits.take(0) =~= Seq::<char>::empty());
    while i < text.len()
        invariant
            start <= i <= text@.len(),
            start < text@.len(),
            digits == text@.skip(start as int),
            parsed_number(text@) == (if all_digits(digits) && digits_value(digits) <= usize::MAX {
                Some(digits_value(digits) as usize)
            } else {
                None
            }),
            forall|j: int| 0 <= j < i - start ==> '0' <= #[trigger] digits[j] <= '9',
            value == digits_value(digits.take(i - start)),
        decreases text@.len() - i,
    {
        let c: char = text[i];
        assert(digits[i - start] == c);
        if c < '0' || c > '9' {
            return None;
        }
        let digit: usize = c as usize - '0' as usize;
        proof {
            let longer = digits.take(i - start + 1);
            assert(longer.drop_last() =~= digits.take(i - start));
            assert(longer.last() == c);
            if all_digits(digits) {
                lemma_digits_grow(digits, i - start + 1);
            }
        }
        value = match value.checked_mul(10) {
            Some(scaled) => match scaled.checked_add(digit) {
                Some(sum) => sum,
                None => {
                    return None;
                },
            },
            None => {
                return None;
            },
        };
        i = i + 1;
    }
    assert(digits.take(i - start) =~= digits);
    Some(value)
}

} // verus!
