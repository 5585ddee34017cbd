//! What reading text gives.

use crate::text::{
    all_digits, digits_value, find, find_from, law_find_from, lemma_line_len, line_len, lines_of,
    occurs, occurs_at, parsed_number, texts, without_cr,
};
use vstd::prelude::*;

verus! {

/// A needle stands where each of its characters does.
pub proof fn law_occurs_at(text: Seq<char>, needle: Seq<char>, i: int)
    ensures
        occurs_at(text, needle, i) <==> {
            &&& 0 <= i
            &&& i + needle.len() <= text.len()
            &&& forall|j: int| 0 <= j < needle.len() ==> text[i + j] == #[trigger] needle[j]
        },
{
    if 0 <= i && i + needle.len() <= text.len() {
        let part = text.subrange(i, i + needle.len());
        if part == needle {
            assert forall|j: int| 0 <= j < needle.len() implies text[i + j] == #[trigger] needle[j] by {
                assert(part[j] == text[i + j]);
            }
        }
        if forall|j: int| 0 <= j < needle.len() ==> text[i + j] == #[trigger] needle[j] {
            assert(part =~= needle);
        }
    }
}

/// A search without a place to begin at begins at the first, and a text holds what is found in it.
pub proof fn law_occurs(text: Seq<char>, needle: Seq<char>)
    ensures
        find(text, needle) == find_from(text, needle, 0),
        occurs(text, needle) <==> exists|i: int| #[trigger] occurs_at(text, needle, i),
{
    law_find_from(text, needle, 0);
    if occurs(text, needle) {
        let i = find(text, needle)->0;
        assert(occurs_at(text, needle, i));
    }
}

proof fn lemma_line_len_is(first: Seq<char>, rest: Seq<char>)
    requires
        !first.contains('\n'),
    ensures
        line_len(first) == first.len(),
        line_len(first.push('\n') + rest) == first.len(),
{
    let whole = first.push('\n') + rest;
    lemma_line_len(first);
    lemma_line_len(whole);
    let n = line_len(whole);
    if line_len(first) < first.len() {
        assert(first.contains(first[line_len(first) as int]));
    }
    if n < first.len() {
        assert(first.contains(first[n as int]));
        assert(whole[n as int] == first[n as int]);
    } else if n > first.len() {
        assert(whole[first.len() as int] == '\n');
    }
}

/// Lines end with a line feed, and with a carriage return before it where there is one; the last
/// may end without. There is no line behind the last line feed.
pub proof fn law_lines(first: Seq<char>, rest: Seq<char>)
    requires
        !first.contains('\n'),
    ensures
        lines_of(Seq::empty()) == Seq::<Seq<char>>::empty(),
        first.len() > 0 ==> lines_of(first) == seq![first],
        first.len() == 0 || first.last() != '\r' ==> lines_of(first.push('\n') + rest) == seq![
            first,
        ] + lines_of(rest),
        lines_of(first.push('\r').push('\n') + rest) == seq![first] + lines_of(rest),
{
    lemma_line_len_is(first, rest);
    assert(lines_of(Seq::empty()) =~= Seq::<Seq<char>>::empty());
    let n = first.len() as int;
    let plain = first.push('\n') + rest;
    assert(plain.take(n) =~= first);
    assert(plain.skip(n + 1) =~= rest);
    let longer = first.push('\r');
    assert(!longer.contains('\n')) by {
        assert forall|i: int| 0 <= i < longer.len() implies longer[i] != '\n' by {
            if i < n {
                assert(first.contains(first[i]));
            }
        }
    }
    lemma_line_len_is(longer, rest);
    let whole = longer.push('\n') + rest;
    assert(whole.take(n + 1) =~= longer);
    assert(whole.skip(n + 2) =~= rest);
    assert(without_cr(longer) =~= first);
}

/// The contents of several texts are those of each.
pub proof fn law_texts(list: Seq<Vec<char>>, i: int)
    requires
        0 <= i < list.len(),
    ensures
        texts(list).len() == list.len(),
        texts(list)[i] == list[i]@,
{
}

proof fn lemma_push_digit(t: Seq<char>, c: char)
    ensures
        digits_value(t.push(c)) == digits_value(t) * 10 + (c as int - '0' as int) || c < '0',
        all_digits(t.push(c)) <==> all_digits(t) && '0' <= c <= '9',
{
    assert(t.push(c).drop_last() =~= t);
    if all_digits(t.push(c)) {
        assert forall|i: int| 0 <= i < t.len() implies '0' <= #[trigger] t[i] <= '9' by {
            assert(t.push(c)[i] == t[i]);
        }
        assert(t.push(c)[t.len() as int] == c);
    }
}

/// What a number is. A digit stands for itself, a digit behind a number adds to ten times that
/// number, and a plus sign before a digit does not count. Nothing else is a number, nor one that
/// does not fit.
pub proof fn law_numbers(t: Seq<char>, c: char)
    ensures
        parsed_number(Seq::empty()) is None,
        parsed_number(seq!['+']) is None,
        parsed_number(seq![c]) == (if '0' <= c <= '9' {
            Some((c as int - '0' as int) as usize)
        } else {
            None
        }),
        parsed_number(seq!['+', c]) == parsed_number(seq![c]),
        t.len() > 0 && t != seq!['+'] ==> parsed_number(t.push(c)) == (match parsed_number(t) {
            Some(n) => if '0' <= c <= '9' && n * 10 + (c as int - '0' as int) <= usize::MAX {
                Some((n * 10 + (c as int - '0' as int)) as usize)
            } else {
                None
            },
            None => None,
        }),
{
    reveal_with_fuel(digits_value, 2);
    assert(seq!['+'].skip(1) =~= Seq::<char>::empty());
    let one = seq![c];
    assert(one =~= Seq::<char>::empty().push(c));
    lemma_push_digit(Seq::empty(), c);
    let plus = seq!['+', c];
    assert(plus.skip(1) =~= one);
    assert(all_digits(Seq::<char>::empty()));
    if c == '+' {
        assert(one.skip(1) =~= Seq::<char>::empty());
        assert(!all_digits(one)) by {
            assert(one[0] == '+');
        }
    }
    if '0' <= c <= '9' {
        assert(digits_value(one) == c as int - '0' as int);
        assert(all_digits(one));
    }
    if t.len() > 0 && t != seq!['+'] {
        let digits = if t[0] == '+' {
            t.skip(1)
        } else {
            t
        };
        let longer = if t[0] == '+' {
            t.push(c).skip(1)
        } else {
            t.push(c)
        };
        assert(t.push(c)[0] == t[0]);
        assert(longer =~= digits.push(c));
        if digits.len() == 0 {
            assert(t =~= seq!['+']);
        }
        lemma_push_digit(digits, c);
    }
}

} // verus!
