//! Laws of searching a document.

use vstd::prelude::*;

use crate::features::buffer_search::{count_words, line_column, query_of, Finder};
use crate::features::context::{Purpose, Scene};
use crate::laws::text::{blank, decimals_are_read_back, trimming_takes_white_space_off_both_ends};
use crate::text::{decimal, ends, first_index, lemma_first_index, starts, trimmed, white};

verus! {

/// A prompt for what to find, or for what to put in its place, is on top.
pub open spec fn asks_for_a_search(scene: Scene) -> bool {
    let count = scene.layers.len();
    count > 0 && scene.layers[count - 1] is Prompt && (scene.layers[count - 1]->target
        == Purpose::Find || scene.layers[count - 1]->target == Purpose::Replace)
}

/// A new search has a generation of its own, and what the last one found is
/// forgotten. Its answer is taken as long as a prompt for it is on top.
pub proof fn new_searches_start_afresh(finder: Finder, text: Seq<char>, generation: u64, scene: Scene)
    requires
        finder.generation < u64::MAX,
    ensures
        ({
            let next = finder.seeking(text);
            &&& next.generation == finder.generation + 1
            &&& next.text == text
            &&& next.matches == 0
            &&& next.active is None
            &&& next.replaced == finder.replaced
            &&& next.highlighted == if text.len() == 0 {
                None
            } else {
                finder.highlighted
            }
            &&& next.awaits(generation, scene) <==> generation == finder.generation + 1
                && asks_for_a_search(scene)
        }),
{
}

/// Matches are highlighted in the editor that was searched, and one of them
/// can only be the active one where there are any.
pub proof fn answers_tell_the_matches(
    finder: Finder,
    matches: int,
    active: Option<int>,
    editor: u64,
    other: u64,
)
    requires
        0 <= matches,
    ensures
        ({
            let next = finder.matched(matches, active, editor);
            &&& next.matches == matches
            &&& next.highlighted == Some(editor)
            &&& matches == 0 ==> next.active is None
            &&& matches > 0 ==> next.active == active
            &&& next.text == finder.text && next.generation == finder.generation
            &&& next.stale(other) <==> other != editor || matches == 0
        }),
{
}

/// A replacement makes a new search of the same text necessary, and is told
/// with how many matches it touched.
pub proof fn replacements_are_told_and_searched_again(finder: Finder, count: int)
    requires
        finder.generation < u64::MAX,
        0 <= count,
    ensures
        ({
            let next = finder.changed(count);
            &&& next.generation == finder.generation + 1
            &&& next.text == finder.text
            &&& next.replaced == Some(count)
            &&& next.matches == finder.matches && next.active == finder.active
            &&& starts(next.words(), "replaced "@ + decimal(count as nat) + "; "@)
            &&& next.words().len() > finder.told().words().len()
            &&& ends(next.words(), finder.told().words())
            &&& finder.told().replaced is None
        }),
{
    let next = finder.changed(count);
    let front = "replaced "@ + decimal(count as nat) + "; "@;
    let rest = count_words(finder.active, finder.matches);
    assert(next.words() == front + rest);
    assert((front + rest).take(front.len() as int) =~= front);
    assert((front + rest).skip(front.len() as int) =~= rest);
    reveal_strlit("replaced ");
}

/// The active match is told counted from one, with the number of all matches
/// behind it; without an active one that number stands in front.
pub proof fn matches_are_counted_from_one(active: Option<int>, matches: int)
    requires
        0 <= matches,
        active is Some ==> 0 <= active->0,
    ensures
        matches == 0 ==> count_words(active, matches) == "no matches"@,
        matches > 0 && active is Some ==> starts(
            count_words(active, matches),
            decimal((active->0 + 1) as nat) + " of "@,
        ) && ends(count_words(active, matches), " of "@ + decimal(matches as nat)),
        matches > 0 && active is Some ==> count_words(active, matches).len() == decimal(
            (active->0 + 1) as nat,
        ).len() + " of "@.len() + decimal(matches as nat).len(),
        matches > 0 && active is None ==> starts(
            count_words(active, matches),
            decimal(matches as nat),
        ) && ends(count_words(active, matches), " matches"@),
{
    let words = count_words(active, matches);
    if matches > 0 {
        if let Some(index) = active {
            let front = decimal((index + 1) as nat) + " of "@;
            let end = " of "@ + decimal(matches as nat);
            assert(words.take(front.len() as int) =~= front);
            assert(words.skip(words.len() - end.len()) =~= end);
        } else {
            let front = decimal(matches as nat);
            assert(words.take(front.len() as int) =~= front);
            assert(words.skip(words.len() - " matches"@.len()) =~= " matches"@);
        }
    }
}

/// A text that starts and ends without white space is not trimmed.
proof fn lemma_not_trimmed(s: Seq<char>)
    requires
        s.len() > 0,
        !white(s[0]),
        !white(s.last()),
    ensures
        trimmed(s) == s,
{
    let (front, end) = trimming_takes_white_space_off_both_ends(s);
    let own = trimmed(s);
    if front.len() > 0 {
        assert(front[0] == s[0]);
    }
    if end.len() > 0 {
        assert(s.last() == end.last());
        assert(white(end[end.len() - 1]));
    }
    assert(s =~= own);
}

/// The digits of a number are no white space and no colon.
proof fn lemma_decimal_is_plain(n: nat)
    ensures
        decimal(n).len() > 0,
        !decimal(n).contains(':'),
        trimmed(decimal(n)) == decimal(n),
{
    let s = decimal(n);
    decimals_are_read_back(n, n);
    assert('0' <= s[0] <= '9');
    assert('0' <= s[s.len() - 1] <= '9');
    lemma_not_trimmed(s);
    if s.contains(':') {
        let i = choose|i: int| 0 <= i < s.len() && s[i] == ':';
        assert('0' <= s[i] <= '9');
    }
}

/// A line and a column are read as they are written, counted from one; a line
/// alone stands for its first column. None of either has the number zero.
pub proof fn places_are_read_as_they_are_written(line: nat, column: nat)
    ensures
        line_column(decimal(line) + ":"@ + decimal(column)) == if 1 <= line <= u32::MAX && 1
            <= column <= u32::MAX {
            Some((line - 1, column - 1))
        } else {
            None
        },
        line_column(decimal(line)) == if 1 <= line <= u32::MAX {
            Some((line - 1, 0int))
        } else {
            None
        },
{
    let (l, c) = (decimal(line), decimal(column));
    lemma_decimal_is_plain(line);
    lemma_decimal_is_plain(column);
    decimals_are_read_back(line, u32::MAX as nat);
    decimals_are_read_back(column, u32::MAX as nat);
    lemma_first_index(l, ':');
    if first_index(l, ':') < l.len() {
        assert(l.contains(l[first_index(l, ':')]));
    }
    reveal_strlit(":");
    let s = l + ":"@ + c;
    assert(s[0] == l[0] && s.last() == c[c.len() - 1]);
    assert('0' <= l[0] <= '9' && '0' <= c[c.len() - 1] <= '9');
    lemma_not_trimmed(s);
    lemma_first_index(s, ':');
    let at = first_index(s, ':');
    assert(s[l.len() as int] == ':');
    if at < l.len() {
        assert(l[at] == s[at]);
        assert(l.contains(l[at]));
    }
    assert(s.take(at) =~= l);
    assert(s.skip(at + 1) =~= c);
}

/// White space around a place, and around its parts, is read over.
pub proof fn white_space_around_places_is_read_over(front: Seq<char>, text: Seq<char>, end: Seq<char>)
    requires
        blank(front),
        blank(end),
        trimmed(text) == text,
        text.len() > 0,
    ensures
        line_column(front + text + end) == line_column(text),
{
    let s = front + text + end;
    let (left, right) = trimming_takes_white_space_off_both_ends(s);
    let (none, nothing) = trimming_takes_white_space_off_both_ends(text);
    let own = trimmed(s);
    assert(none.len() == 0 && nothing.len() == 0);
    assert(!white(text[0]) && !white(text[text.len() - 1]));
    assert(s[front.len() as int] == text[0]);
    assert(s[front.len() + text.len() - 1] == text[text.len() - 1]);
    if left.len() > front.len() {
        assert(left[front.len() as int] == s[front.len() as int]);
    }
    if own.len() == 0 {
        assert(white(s[front.len() as int]));
    }
    if left.len() < front.len() {
        assert(own[0] == s[left.len() as int]);
        assert(front[left.len() as int] == s[left.len() as int]);
    }
    assert(left.len() == front.len());
    if right.len() > end.len() {
        let i = front.len() + text.len() - 1;
        assert(right[i - left.len() - own.len()] == s[i]);
    }
    if right.len() < end.len() {
        let i = s.len() - right.len() - 1;
        assert(own[own.len() - 1] == s[i]);
        assert(end[i - front.len() - text.len()] == s[i]);
    }
    assert(right.len() == end.len());
    assert(own.len() == text.len());
    assert forall|i: int| 0 <= i < own.len() implies own[i] == text[i] by {
        assert(s[left.len() + i] == own[i]);
        assert(s[front.len() + i] == text[i]);
    }
    assert(own =~= text);
}

/// What is searched for is the text itself, no pattern, in either case, with
/// the replacement that was given.
pub proof fn documents_are_searched_for_the_text_itself(text: Seq<char>, replacement: Option<Seq<char>>)
    ensures
        ({
            let plan = query_of(text, replacement);
            &&& plan.text == text
            &&& plan.replacement == replacement
            &&& !plan.regex && !plan.whole_word && !plan.case_sensitive
            &&& !plan.include_ignored && !plan.open_buffers_only && !plan.one_match_per_line
            &&& plan.include_globs.len() == 0 && plan.exclude_globs.len() == 0
        }),
{
}

/// The prompt for a replacement starts empty, and tells the matches that there
/// are.
pub proof fn replacements_are_asked_for(finder: Finder)
    ensures
        ({
            let layer = finder.replacing();
            &&& layer is Prompt
            &&& layer->line.text.len() == 0
            &&& layer->target == Purpose::Replace
            &&& layer->feedback == Some(finder.words())
        }),
{
}

} // verus!
