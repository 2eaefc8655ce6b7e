//! Laws of texts.

use vstd::prelude::*;

use crate::text::{
    bounded, comma_separated, decimal, digits_value, ends, first_index, folded_code, holds, has_at, lemma_first_index,
    lines, number_value, pieces, precedes, same_folded, starts, trimmed, trimmed_end, trimmed_start, white,
    without_end,
};

verus! {

/// A text of one scalar value, repeated.
pub open spec fn repeated(c: char, count: nat) -> Seq<char> {
    Seq::new(count, |i: int| c)
}

/// The texts of a list, with a separator between each and the next.
pub open spec fn with_between(list: Seq<Seq<char>>, separator: char) -> Seq<char>
    decreases list.len(),
{
    if list.len() == 0 {
        Seq::empty()
    } else if list.len() == 1 {
        list[0]
    } else {
        list[0].push(separator) + with_between(list.drop_first(), separator)
    }
}

/// All of a text is white space.
pub open spec fn blank(s: Seq<char>) -> bool {
    forall|i: int| 0 <= i < s.len() ==> white(#[trigger] s[i])
}

proof fn lemma_trimmed_start(s: Seq<char>) -> (from: int)
    ensures
        0 <= from <= s.len(),
        trimmed_start(s) == s.skip(from),
        blank(s.take(from)),
        from < s.len() ==> !white(s[from]),
    decreases s.len(),
{
    if s.len() > 0 && white(s[0]) {
        let rest = s.drop_first();
        let from = lemma_trimmed_start(rest);
        assert(rest.skip(from) =~= s.skip(from + 1));
        assert forall|i: int| 0 <= i < from + 1 implies white(#[trigger] s.take(from + 1)[i]) by {
            if i > 0 {
                assert(s[i] == rest.take(from)[i - 1]);
            }
        }
        from + 1
    } else {
        assert(s.skip(0) =~= s);
        0
    }
}

proof fn lemma_trimmed_end(s: Seq<char>) -> (to: int)
    ensures
        0 <= to <= s.len(),
        trimmed_end(s) == s.take(to),
        blank(s.skip(to)),
        0 < to ==> !white(s[to - 1]),
    decreases s.len(),
{
    if s.len() > 0 && white(s.last()) {
        let rest = s.drop_last();
        let to = lemma_trimmed_end(rest);
        assert(rest.take(to) =~= s.take(to));
        assert forall|i: int| 0 <= i < s.len() - to implies white(#[trigger] s.skip(to)[i]) by {
            if i + to < rest.len() {
                assert(s[i + to] == rest.skip(to)[i]);
            }
        }
        to
    } else {
        assert(s.take(s.len() as int) =~= s);
        s.len() as int
    }
}

/// Trimming takes the white space off both ends, all of it and nothing else.
pub proof fn trimming_takes_white_space_off_both_ends(s: Seq<char>) -> (parts: (Seq<char>, Seq<char>))
    ensures
        s == parts.0 + trimmed(s) + parts.1,
        blank(parts.0),
        blank(parts.1),
        trimmed(s).len() > 0 ==> !white(trimmed(s)[0]) && !white(trimmed(s).last()),
        trimmed(s).len() == 0 <==> blank(s),
{
    let from = lemma_trimmed_start(s);
    let rest = s.skip(from);
    let to = lemma_trimmed_end(rest);
    assert(s =~= s.take(from) + rest.take(to) + rest.skip(to));
    if to > 0 {
        assert(rest[0] == s[from]);
        assert(rest[0] == s[from]);
        assert(rest.take(to)[0] == s[from]);
        assert(!blank(s));
    } else {
        assert(rest.take(to) =~= Seq::<char>::empty());
        assert forall|i: int| 0 <= i < s.len() implies white(#[trigger] s[i]) by {
            if i < from {
                assert(s.take(from)[i] == s[i]);
            } else {
                assert(rest.skip(to)[i - from] == s[i]);
            }
        }
    }
    (s.take(from), rest.skip(to))
}

/// Reading what was written in decimal gives the number back, and only a
/// number up to the limit is taken. No number is written with a zero in front.
pub proof fn decimals_are_read_back(n: nat, limit: nat)
    ensures
        digits_value(decimal(n)) == Some(n),
        number_value(decimal(n), limit) == if n <= limit {
            Some(n)
        } else {
            None
        },
        decimal(n).len() > 0,
        forall|i: int| 0 <= i < decimal(n).len() ==> '0' <= #[trigger] decimal(n)[i] <= '9',
        decimal(n)[0] == '0' ==> n == 0,
        decimal(n).len() == 1 <==> n < 10,
    decreases n,
{
    reveal_with_fuel(digits_value, 2);
    if n < 10 {
        assert(decimal(n).drop_last() =~= Seq::<char>::empty());
    } else {
        decimals_are_read_back(n / 10, limit);
        let front = decimal(n / 10);
        let last = ('0' as u32 + n % 10) as char;
        assert(decimal(n) == front.push(last));
        assert(decimal(n).drop_last() =~= front);
        assert(decimal(n)[0] == front[0]);
        assert forall|i: int| 0 <= i < decimal(n).len() implies '0' <= #[trigger] decimal(n)[i]
            <= '9' by {
            if i < front.len() {
                assert(decimal(n)[i] == front[i]);
            }
        }
    }
}

/// A longer number is written with the number before its last digit in front.
pub proof fn decimals_are_written_digit_by_digit(n: nat, d: nat)
    requires
        0 < n,
        d < 10,
    ensures
        decimal((10 * n + d) as nat) == decimal(n).push((48 + d) as char),
{
    let all = (10 * n + d) as nat;
    assert(all / 10 == n && all % 10 == d);
}

/// A sign in front of a number is read over, and nothing else is.
pub proof fn numbers_are_made_of_digits(s: Seq<char>, limit: nat)
    ensures
        number_value(s, limit) is Some ==> (exists|n: nat|
            n <= limit && digits_value(s) == Some(n)) || s[0] == '+' && (exists|n: nat|
            n <= limit && digits_value(s.drop_first()) == Some(n)),
        number_value(s, limit) matches Some(n) ==> n <= limit && s.len() > 0,
        digits_value(s) is Some <==> (forall|i: int|
            0 <= i < s.len() ==> '0' <= #[trigger] s[i] <= '9'),
    decreases s.len(),
{
    if s.len() > 0 {
        numbers_are_made_of_digits(s.drop_last(), limit);
        if digits_value(s) is Some {
            assert forall|i: int| 0 <= i < s.len() implies '0' <= #[trigger] s[i] <= '9' by {
                if i < s.len() - 1 {
                    assert(s.drop_last()[i] == s[i]);
                }
            }
        } else if '0' <= s.last() <= '9' {
            let i = choose|i: int|
                0 <= i < s.drop_last().len() && !('0' <= #[trigger] s.drop_last()[i] <= '9');
            assert(s.drop_last()[i] == s[i]);
        }
    }
}

/// A text is cut at each separator and nowhere else: the pieces, with the
/// separators between them, are the text, and no piece holds a separator.
pub proof fn pieces_make_up_the_text(s: Seq<char>, separator: char)
    ensures
        with_between(pieces(s, separator), separator) == s,
        pieces(s, separator).len() > 0,
        forall|i: int|
            0 <= i < pieces(s, separator).len() ==> !(#[trigger] pieces(s, separator)[i]).contains(
                separator,
            ),
    decreases s.len(),
{
    lemma_first_index(s, separator);
    let i = first_index(s, separator);
    let list = pieces(s, separator);
    if i >= s.len() {
        assert(list == seq![s]);
    } else {
        let rest = s.skip(i + 1);
        pieces_make_up_the_text(rest, separator);
        assert(list == seq![s.take(i)] + pieces(rest, separator));
        assert(list.drop_first() =~= pieces(rest, separator));
        assert(s =~= s.take(i).push(separator) + rest);
        assert forall|k: int| 0 <= k < list.len() implies !(#[trigger] list[k]).contains(
            separator,
        ) by {
            if k > 0 {
                assert(list[k] == pieces(rest, separator)[k - 1]);
            }
        }
    }
}

/// A line goes up to the line feed, without a carriage return in front of it;
/// after the last line feed a line comes only where there is text.
pub proof fn lines_end_at_line_feeds(line: Seq<char>, rest: Seq<char>)
    requires
        !line.contains('\n'),
    ensures
        lines(line.push('\n') + rest) == seq![
            if line.len() > 0 && line.last() == '\r' {
                line.drop_last()
            } else {
                line
            },
        ] + lines(rest),
        lines(line) == if line.len() == 0 {
            Seq::empty()
        } else {
            seq![line]
        },
{
    let s = line.push('\n') + rest;
    lemma_first_index(s, '\n');
    lemma_first_index(line, '\n');
    let end = first_index(s, '\n');
    assert(s[line.len() as int] == '\n');
    assert(end <= line.len());
    if end < line.len() {
        assert(line[end] == s[end]);
        assert(line.contains('\n'));
    }
    assert(s.take(end) =~= line);
    assert(s.skip(end + 1) =~= rest);
    if line.len() > 0 && first_index(line, '\n') < line.len() {
        assert(line.contains(line[first_index(line, '\n')]));
    }
}

/// What is over the limit is cut off, and an ellipsis stands for it.
pub proof fn long_texts_are_cut_at_the_limit(s: Seq<char>, limit: int)
    requires
        0 <= limit,
    ensures
        s.len() <= limit ==> bounded(s, limit) == s,
        s.len() > limit ==> bounded(s, limit).len() == limit + 1 && bounded(s, limit).last()
            == '\u{2026}' && bounded(s, limit).drop_last() == s.subrange(0, limit),
{
    if s.len() > limit {
        assert(bounded(s, limit).drop_last() =~= s.subrange(0, limit));
    }
}

/// Of two texts the one comes first that has the lower scalar value where they
/// first differ; where one ends it comes before all that goes on.
pub proof fn texts_are_ordered_by_their_first_difference(
    front: Seq<char>,
    a: char,
    b: char,
    x: Seq<char>,
    y: Seq<char>,
)
    ensures
        (a as u32) < (b as u32) ==> precedes(front.push(a) + x, front.push(b) + y) && !precedes(
            front.push(b) + y,
            front.push(a) + x,
        ),
        precedes(front, front.push(a) + x),
        !precedes(front.push(a) + x, front),
    decreases front.len(),
{
    let left = front.push(a) + x;
    let right = front.push(b) + y;
    if front.len() > 0 {
        let rest = front.drop_first();
        texts_are_ordered_by_their_first_difference(rest, a, b, x, y);
        assert(left.drop_first() =~= rest.push(a) + x);
        assert(right.drop_first() =~= rest.push(b) + y);
        assert(left[0] == front[0] && right[0] == front[0]);
    } else {
        assert(left[0] == a && right[0] == b);
    }
}

/// Two scalar values are one letter from A to Z, in either case, or the same.
pub open spec fn same_but_case(a: char, b: char) -> bool {
    ||| a == b
    ||| 'A' <= a <= 'Z' && b as u32 == a as u32 + 32
    ||| 'A' <= b <= 'Z' && a as u32 == b as u32 + 32
}

proof fn lemma_folded_code(a: char, b: char)
    ensures
        folded_code(a) == folded_code(b) <==> same_but_case(a, b),
{
}

/// Two texts are alike but for the case of the letters from A to Z.
pub proof fn folding_is_for_ascii_letters(a: Seq<char>, b: Seq<char>)
    ensures
        same_folded(a, b) <==> a.len() == b.len() && forall|i: int|
            0 <= i < a.len() ==> same_but_case(#[trigger] a[i], b[i]),
{
    if a.len() == b.len() {
        assert forall|i: int| 0 <= i < a.len() implies (folded_code(#[trigger] a[i]) == folded_code(
            b[i],
        ) <==> same_but_case(a[i], b[i])) by {
            lemma_folded_code(a[i], b[i]);
        }
    }
}

/// What is taken off the end is one scalar value, as often as it stands there.
pub proof fn ends_are_taken_off_whole(s: Seq<char>, c: char) -> (count: nat)
    ensures
        s == without_end(s, c) + repeated(c, count),
        without_end(s, c).len() > 0 ==> without_end(s, c).last() != c,
    decreases s.len(),
{
    if s.len() > 0 && s.last() == c {
        let count = ends_are_taken_off_whole(s.drop_last(), c);
        let front = without_end(s.drop_last(), c);
        assert(s =~= s.drop_last().push(c));
        assert(s =~= front + repeated(c, count + 1));
        count + 1
    } else {
        assert(s =~= without_end(s, c) + repeated(c, 0));
        0
    }
}

/// A text starts with its front, ends with its end, and holds what stands
/// between.
pub proof fn texts_hold_their_parts(front: Seq<char>, part: Seq<char>, end: Seq<char>)
    ensures
        starts(front + part, front),
        ends(front + part, part),
        holds(front + part + end, part),
{
    assert((front + part).take(front.len() as int) =~= front);
    assert((front + part).skip(front.len() as int) =~= part);
    let s = front + part + end;
    assert(s.subrange(front.len() as int, (front.len() + part.len()) as int) =~= part);
    assert(has_at(s, part, front.len() as int));
}

/// What a text starts with, ends with or holds is found in it, in its place.
pub proof fn parts_are_found_in_the_text(s: Seq<char>, part: Seq<char>) -> (place: int)
    ensures
        starts(s, part) ==> s == part + s.skip(part.len() as int),
        ends(s, part) ==> s == s.take(s.len() - part.len()) + part,
        holds(s, part) ==> 0 <= place <= s.len() - part.len() && s == s.take(place) + part + s.skip(
            place + part.len(),
        ),
{
    if starts(s, part) {
        assert(s =~= s.take(part.len() as int) + s.skip(part.len() as int));
    }
    if ends(s, part) {
        assert(s =~= s.take(s.len() - part.len()) + s.skip(s.len() - part.len()));
    }
    let place = choose|i: int| has_at(s, part, i);
    if holds(s, part) {
        assert(s =~= s.take(place) + s.subrange(place, place + part.len()) + s.skip(
            place + part.len(),
        ));
    }
    place
}

/// Names in a row have a comma and a space between them, and none in front or
/// behind.
pub proof fn names_are_separated_by_commas(list: Seq<Seq<char>>, name: Seq<char>)
    ensures
        comma_separated(Seq::empty()) == Seq::<char>::empty(),
        comma_separated(seq![name]) == name,
        list.len() > 0 ==> comma_separated(list.push(name)) == comma_separated(list) + seq![',', ' ']
            + name,
{
    reveal_strlit(", ");
    assert(", "@ =~= seq![',', ' ']);
    assert(list.push(name).drop_last() =~= list);
}

} // verus!
