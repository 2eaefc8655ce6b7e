//! The outline of a document: its headings as a tree that can be collapsed,
//! filtered, and followed by the cursor.

use std::collections::BTreeSet;
use std::ops::Range;

use ratatui::buffer::Buffer;
use vstd::prelude::*;
use vstd::string::*;

use crate::geometry::{
    above_zero, centered_start, centered_start_of, centered_window_shows_the_selection,
    coordinate, kept, least, lemma_kept, lemma_kept_front, lemma_kept_skip, numbers,
    step_by, stepped, Point, Position, Rect,
};
use crate::input::lowercase;
use crate::paint::{
    add_modifiers, buffer_area, buffer_cells, drawn, line_row, no_parts, paint, plain_style,
    row_views, strokes, with_modifiers, Paint, Stroke, StyleParts, StyledRow, REVERSED,
};
use crate::text::{byte_len, holds, holds_char, holds_text, texts, utf8_len};

verus! {

broadcast use {vstd::std_specs::btree::group_btree_axioms, vstd::string::group_string_axioms};

pub const MAX_OUTLINE_ENTRIES: usize = 100_000;

pub const MAX_OUTLINE_TEXT_BYTES: usize = 4_096;

pub const MAX_FILTER_BYTES: usize = 4_096;

#[derive(Clone, Copy, Debug, PartialEq, Eq, PartialOrd, Ord, Hash, Structural)]
pub struct OutlineEntryId(pub u64);

/// A heading, with the part of the document that it heads and the part that
/// is selected when it is opened.
#[derive(Debug, PartialEq, Eq)]
pub struct OutlineEntry {
    pub id: OutlineEntryId,
    pub depth: usize,
    pub text: String,
    pub range: Range<Point>,
    pub selection_range: Range<Point>,
}

/// The plain values of an [`OutlineEntry`].
pub struct Heading {
    pub id: u64,
    pub depth: usize,
    pub text: Seq<char>,
    pub start: Point,
    pub end: Point,
    pub selection_start: Point,
    pub selection_end: Point,
}

impl View for OutlineEntry {
    type V = Heading;

    open spec fn view(&self) -> Heading {
        Heading {
            id: self.id.0,
            depth: self.depth,
            text: self.text@,
            start: self.range.start,
            end: self.range.end,
            selection_start: self.selection_range.start,
            selection_end: self.selection_range.end,
        }
    }
}

impl Clone for OutlineEntry {
    fn clone(&self) -> (copy: Self)
        ensures
            copy@ == self@,
    {
        OutlineEntry {
            id: self.id,
            depth: self.depth,
            text: self.text.clone(),
            range: Range { start: self.range.start, end: self.range.end },
            selection_range: Range {
                start: self.selection_range.start,
                end: self.selection_range.end,
            },
        }
    }
}

/// The headings that a list of entries holds.
pub open spec fn headings(list: Seq<OutlineEntry>) -> Seq<Heading> {
    Seq::new(list.len(), |i: int| list[i]@)
}

/// The outline of a document at one moment.
#[derive(Clone, Debug, PartialEq, Eq)]
pub struct OutlineSnapshot {
    pub generation: u64,
    pub source_id: u64,
    pub title: String,
    pub entries: Vec<OutlineEntry>,
}

/// Why an outline or a request is refused.
#[derive(Clone, Copy, Debug, PartialEq, Eq, Structural)]
pub enum OutlineError {
    GenerationIsZero,
    TooManyEntries,
    TitleTooLarge,
    DuplicateId,
    InvalidText,
    ReversedRange,
    ReversedSelectionRange,
    SkippedLevel,
    FilterTooLarge,
    HiddenEntry,
}

impl OutlineError {
    pub open spec fn text(self) -> Seq<char> {
        match self {
            OutlineError::GenerationIsZero => "outline generation must be positive"@,
            OutlineError::TooManyEntries => "outline has too many entries"@,
            OutlineError::TitleTooLarge => "outline title is too large"@,
            OutlineError::DuplicateId => "outline contains a duplicate ID"@,
            OutlineError::InvalidText => "outline entry text is invalid"@,
            OutlineError::ReversedRange => "outline range is reversed"@,
            OutlineError::ReversedSelectionRange => "outline selection range is reversed"@,
            OutlineError::SkippedLevel => "outline depth skips a parent level"@,
            OutlineError::FilterTooLarge => "outline filter is too large"@,
            OutlineError::HiddenEntry => "cannot select a hidden outline entry"@,
        }
    }

    /// The error in words.
    pub fn message(&self) -> (message: &'static str)
        ensures
            message@ == self.text(),
    {
        match self {
            OutlineError::GenerationIsZero => "outline generation must be positive",
            OutlineError::TooManyEntries => "outline has too many entries",
            OutlineError::TitleTooLarge => "outline title is too large",
            OutlineError::DuplicateId => "outline contains a duplicate ID",
            OutlineError::InvalidText => "outline entry text is invalid",
            OutlineError::ReversedRange => "outline range is reversed",
            OutlineError::ReversedSelectionRange => "outline selection range is reversed",
            OutlineError::SkippedLevel => "outline depth skips a parent level",
            OutlineError::FilterTooLarge => "outline filter is too large",
            OutlineError::HiddenEntry => "cannot select a hidden outline entry",
        }
    }
}

/// Whether one of the headings has the ID.
pub open spec fn has_id(list: Seq<Heading>, id: u64) -> bool {
    exists|i: int| 0 <= i < list.len() && #[trigger] list[i].id == id
}

/// What is wrong with the last heading of a list, given those before it.
pub open spec fn last_fault(list: Seq<Heading>) -> Option<OutlineError> {
    let last = list.last();
    if has_id(list.drop_last(), last.id) {
        Some(OutlineError::DuplicateId)
    } else if last.text.contains('\n') || last.text.contains('\r') || utf8_len(last.text)
        > MAX_OUTLINE_TEXT_BYTES {
        Some(OutlineError::InvalidText)
    } else if !last.start.reaches(last.end) {
        Some(OutlineError::ReversedRange)
    } else if !last.selection_start.reaches(last.selection_end) {
        Some(OutlineError::ReversedSelectionRange)
    } else if list.len() > 1 && last.depth > list[list.len() - 2].depth + 1 {
        Some(OutlineError::SkippedLevel)
    } else {
        None
    }
}

/// The first thing that is wrong with the headings.
pub open spec fn heading_fault(list: Seq<Heading>) -> Option<OutlineError>
    decreases list.len(),
{
    if list.len() == 0 {
        None
    } else if heading_fault(list.drop_last()) is Some {
        heading_fault(list.drop_last())
    } else {
        last_fault(list)
    }
}

/// The first thing that is wrong with a snapshot.
pub open spec fn snapshot_fault(
    generation: u64,
    title: Seq<char>,
    list: Seq<Heading>,
) -> Option<OutlineError> {
    if generation == 0 {
        Some(OutlineError::GenerationIsZero)
    } else if list.len() > MAX_OUTLINE_ENTRIES {
        Some(OutlineError::TooManyEntries)
    } else if utf8_len(title) > MAX_OUTLINE_TEXT_BYTES {
        Some(OutlineError::TitleTooLarge)
    } else {
        heading_fault(list)
    }
}

proof fn lemma_fault_stays(list: Seq<Heading>, count: int)
    requires
        0 <= count <= list.len(),
        heading_fault(list.take(count)) is Some,
    ensures
        heading_fault(list) == heading_fault(list.take(count)),
    decreases list.len(),
{
    if count == list.len() {
        assert(list.take(count) =~= list);
    } else {
        assert(list.drop_last().take(count) =~= list.take(count));
        lemma_fault_stays(list.drop_last(), count);
    }
}

fn validate_snapshot(snapshot: &OutlineSnapshot) -> (result: Result<(), OutlineError>)
    ensures
        result == (match snapshot_fault(
            snapshot.generation,
            snapshot.title@,
            headings(snapshot.entries@),
        ) {
            Some(fault) => Err::<(), OutlineError>(fault),
            None => Ok(()),
        }),
{
    if snapshot.generation == 0 {
        return Err(OutlineError::GenerationIsZero);
    }
    if snapshot.entries.len() > MAX_OUTLINE_ENTRIES {
        return Err(OutlineError::TooManyEntries);
    }
    if byte_len(snapshot.title.as_str()) > MAX_OUTLINE_TEXT_BYTES {
        return Err(OutlineError::TitleTooLarge);
    }
    let ghost list = headings(snapshot.entries@);
    let ghost fault = heading_fault(list);
    let mut ids: BTreeSet<u64> = BTreeSet::new();
    let mut previous_depth: usize = 0;
    let mut index: usize = 0;
    assert(list.take(0) =~= Seq::<Heading>::empty());
    while index < snapshot.entries.len()
        invariant
            index <= snapshot.entries@.len(),
            list == headings(snapshot.entries@),
            fault == heading_fault(list),
            heading_fault(list.take(index as int)) is None,
            index > 0 ==> previous_depth == list[index - 1].depth,
            forall|id: u64| ids@.contains(id) == has_id(list.take(index as int), id),
            snapshot.generation != 0,
            list.len() <= MAX_OUTLINE_ENTRIES,
            utf8_len(snapshot.title@) <= MAX_OUTLINE_TEXT_BYTES,
        decreases snapshot.entries@.len() - index,
    {
        let entry = &snapshot.entries[index];
        let ghost before = list.take(index as int);
        let ghost seen = list.take(index + 1);
        proof {
            assert(seen.drop_last() =~= before);
            assert(seen.last() == entry@);
            if last_fault(seen) is Some {
                lemma_fault_stays(list, index + 1);
            }
            assert forall|id: u64| has_id(seen, id) == (has_id(before, id) || id
                == entry.id.0) by {
                if has_id(before, id) {
                    let k = choose|k: int| 0 <= k < before.len() && #[trigger] before[k].id == id;
                    assert(seen[k].id == id);
                }
                if id == entry.id.0 {
                    assert(seen[index as int].id == id);
                }
                if has_id(seen, id) {
                    let k = choose|k: int| 0 <= k < seen.len() && #[trigger] seen[k].id == id;
                    if k < index {
                        assert(before[k].id == id);
                    }
                }
            }
        }
        if !ids.insert(entry.id.0) {
            return Err(OutlineError::DuplicateId);
        }
        if holds_char(entry.text.as_str(), '\n') || holds_char(entry.text.as_str(), '\r')
            || byte_len(entry.text.as_str()) > MAX_OUTLINE_TEXT_BYTES {
            return Err(OutlineError::InvalidText);
        }
        if !entry.range.start.at_or_before(&entry.range.end) {
            return Err(OutlineError::ReversedRange);
        }
        if !entry.selection_range.start.at_or_before(&entry.selection_range.end) {
            return Err(OutlineError::ReversedSelectionRange);
        }
        assert(index > 0 ==> seen[seen.len() - 2] == list[index - 1]);
        if index > 0 && entry.depth > previous_depth.saturating_add(1) {
            return Err(OutlineError::SkippedLevel);
        }
        previous_depth = entry.depth;
        index += 1;
    }
    assert(list.take(index as int) =~= list);
    Ok(())
}

/// Whether a heading stands above another: all from the one to the other are
/// deeper.
pub open spec fn ancestor(list: Seq<Heading>, a: int, i: int) -> bool {
    0 <= a < i && forall|k: int| a < k <= i ==> list[a].depth < (#[trigger] list[k]).depth
}

/// Which headings stand above one.
pub open spec fn above(list: Seq<Heading>, i: int) -> spec_fn(int) -> bool {
    |a: int| ancestor(list, a, i)
}

/// The headings above one, from the outermost on.
pub open spec fn ancestors(list: Seq<Heading>, i: int) -> Seq<int> {
    kept(0, i, above(list, i))
}

fn ancestor_indices(entries: &Vec<OutlineEntry>, index: usize) -> (result: Vec<usize>)
    requires
        index < entries@.len(),
    ensures
        numbers(result@) == ancestors(headings(entries@), index as int),
{
    let ghost list = headings(entries@);
    let ghost keep = above(list, index as int);
    let mut depth: usize = entries[index].depth;
    let mut result: Vec<usize> = Vec::new();
    let mut candidate: usize = index;
    let ghost mut lowest: int = index as int;
    assert(numbers(result@) =~= kept(index as int, index as int, keep));
    while candidate > 0 && depth > 0
        invariant
            candidate <= index < entries@.len(),
            list == headings(entries@),
            keep == above(list, index as int),
            candidate <= lowest <= index,
            depth == list[lowest].depth,
            forall|k: int| candidate <= k <= index ==> depth <= (#[trigger] list[k]).depth,
            numbers(result@) == kept(candidate as int, index as int, keep),
        decreases candidate,
    {
        candidate -= 1;
        proof {
            lemma_kept_front(candidate as int, index as int, keep);
            assert(list[candidate as int] == entries@[candidate as int]@);
            assert(list[lowest].depth == depth);
            assert(keep(candidate as int) == ancestor(list, candidate as int, index as int));
        }
        let ghost old_result = result@;
        if entries[candidate].depth < depth {
            result.insert(0, candidate);
            depth = entries[candidate].depth;
            proof {
                assert(keep(candidate as int));
                lowest = candidate as int;
            }
        }
        proof {
            assert(numbers(result@) =~= kept(candidate as int, index as int, keep));
        }
    }
    proof {
        assert forall|n: int| 0 <= n < candidate implies !#[trigger] keep(n) by {
            if keep(n) {
                assert(ancestor(list, n, index as int));
                assert(list[n].depth < list[lowest].depth);
            }
        }
        lemma_kept_skip(0, candidate as int, index as int, keep);
    }
    result
}

/// Which headings are shown: where nothing is searched for, those with no
/// collapsed heading above them; else those that were found, and those above
/// them.
pub open spec fn shown(
    list: Seq<Heading>,
    collapsed: Set<u64>,
    found: Option<Seq<bool>>,
) -> spec_fn(int) -> bool {
    |i: int|
        match found {
            None => forall|a: int| #[trigger]
                ancestor(list, a, i) ==> !collapsed.contains(list[a].id),
            Some(found) => found[i] || exists|j: int|
                j < list.len() && found[j] && #[trigger] ancestor(list, i, j),
        }
}

/// The headings that are shown, in order.
pub open spec fn visible(
    list: Seq<Heading>,
    collapsed: Set<u64>,
    found: Option<Seq<bool>>,
) -> Seq<int> {
    kept(0, list.len() as int, shown(list, collapsed, found))
}

/// Whether the part of the outline under a heading goes on at an index.
spec fn open_at(list: Seq<Heading>, a: int, i: int) -> bool {
    0 <= a < i && forall|k: int| a < k < i ==> list[a].depth < (#[trigger] list[k]).depth
}

fn unfiltered_entries(entries: &Vec<OutlineEntry>, collapsed: &BTreeSet<u64>) -> (result: Vec<
    usize,
>)
    ensures
        numbers(result@) == visible(headings(entries@), collapsed@, None),
{
    let ghost list = headings(entries@);
    let ghost keep = shown(list, collapsed@, None);
    let mut result: Vec<usize> = Vec::new();
    let mut collapsed_depth: Option<usize> = None;
    let ghost mut outermost: int = 0;
    let mut index: usize = 0;
    assert(numbers(result@) =~= Seq::<int>::empty());
    while index < entries.len()
        invariant
            index <= entries@.len(),
            list == headings(entries@),
            keep == shown(list, collapsed@, None),
            numbers(result@) == kept(0, index as int, keep),
            collapsed_depth is None ==> forall|a: int| #[trigger]
                open_at(list, a, index as int) ==> !collapsed@.contains(list[a].id),
            collapsed_depth matches Some(depth) ==> {
                &&& open_at(list, outermost, index as int)
                &&& collapsed@.contains(list[outermost].id)
                &&& depth == list[outermost].depth
                &&& forall|a: int| #[trigger]
                    open_at(list, a, index as int) && collapsed@.contains(list[a].id)
                        ==> list[a].depth >= depth
            },
        decreases entries@.len() - index,
    {
        let ghost i = index as int;
        assert(list[i] == entries@[i]@);
        proof {
            assert forall|a: int| ancestor(list, a, i) == (#[trigger] open_at(list, a, i)
                && list[a].depth < list[i].depth) by {}
            assert forall|a: int| #[trigger] open_at(list, a, i + 1) implies a == i || open_at(
                list,
                a,
                i,
            ) && list[a].depth < list[i].depth by {}
        }
        let hidden = match collapsed_depth {
            Some(depth) => entries[index].depth > depth,
            None => false,
        };
        if hidden {
            assert(ancestor(list, outermost, i));
            assert(!keep(i));
            assert(open_at(list, outermost, i + 1));
        } else {
            proof {
                assert forall|a: int| #[trigger] ancestor(list, a, i) implies !collapsed@.contains(
                    list[a].id,
                ) by {
                    assert(open_at(list, a, i));
                }
                assert(keep(i));
            }
            result.push(index);
            if collapsed.contains(&entries[index].id.0) {
                collapsed_depth = Some(entries[index].depth);
                proof {
                    outermost = i;
                    assert forall|a: int| #[trigger]
                        open_at(list, a, i + 1) && collapsed@.contains(list[a].id) implies list[a].depth
                        >= list[i].depth by {
                        if a != i {
                            assert(ancestor(list, a, i));
                        }
                    }
                }
            } else {
                collapsed_depth = None;
                proof {
                    assert forall|a: int| #[trigger] open_at(list, a, i + 1) implies !collapsed@.contains(
                        list[a].id,
                    ) by {
                        if a != i {
                            assert(ancestor(list, a, i));
                        }
                    }
                }
            }
        }
        index += 1;
        assert(numbers(result@) =~= kept(0, index as int, keep));
    }
    result
}

fn filtered_entries(entries: &Vec<OutlineEntry>, found: &Vec<bool>, collapsed: Ghost<Set<u64>>) -> (
    result: Vec<usize>)
    requires
        found@.len() == entries@.len(),
    ensures
        numbers(result@) == visible(headings(entries@), collapsed@, Some(found@)),
{
    let ghost list = headings(entries@);
    let mut marks: Vec<bool> = Vec::new();
    let mut i: usize = 0;
    while i < entries.len()
        invariant
            i <= entries@.len(),
            marks@.len() == i,
            forall|k: int| 0 <= k < i ==> !#[trigger] marks@[k],
        decreases entries@.len() - i,
    {
        marks.push(false);
        i += 1;
    }
    let mut index: usize = 0;
    while index < entries.len()
        invariant
            index <= entries@.len(),
            list == headings(entries@),
            found@.len() == entries@.len(),
            marks@.len() == entries@.len(),
            forall|k: int|
                0 <= k < marks@.len() ==> #[trigger] marks@[k] == (k < index && found@[k]
                    || exists|j: int| j < index && found@[j] && #[trigger] ancestor(list, k, j)),
        decreases entries@.len() - index,
    {
        if found[index] {
            let ghost before = marks@;
            let above_it = ancestor_indices(entries, index);
            let ghost chain = ancestors(list, index as int);
            proof {
                lemma_kept(0, index as int, above(list, index as int));
            }
            marks.set(index, true);
            let mut k: usize = 0;
            while k < above_it.len()
                invariant
                    k <= above_it@.len(),
                    index < entries@.len(),
                    marks@.len() == entries@.len() == before.len(),
                    chain == numbers(above_it@),
                    forall|n: int| 0 <= n < chain.len() ==> 0 <= #[trigger] chain[n] < index,
                    forall|n: int|
                        0 <= n < marks@.len() ==> #[trigger] marks@[n] == (before[n] || n == index
                            || chain.take(k as int).contains(n)),
                decreases above_it@.len() - k,
            {
                assert(chain[k as int] == above_it@[k as int]);
                let ghost shorter = chain.take(k as int);
                let ghost longer = chain.take(k + 1);
                marks.set(above_it[k], true);
                proof {
                    assert(longer =~= shorter.push(chain[k as int]));
                    assert forall|n: int| longer.contains(n) == (shorter.contains(n) || n
                        == chain[k as int]) by {
                        if shorter.contains(n) {
                            let m = choose|m: int| 0 <= m < shorter.len() && shorter[m] == n;
                            assert(longer[m] == n);
                        }
                        assert(longer[k as int] == chain[k as int]);
                    }
                }
                k += 1;
            }
            proof {
                assert(chain.take(k as int) =~= chain);
                assert forall|n: int| 0 <= n < marks@.len() implies #[trigger] marks@[n] == (n
                    < index + 1 && found@[n] || exists|j: int|
                    j < index + 1 && found@[j] && #[trigger] ancestor(list, n, j)) by {
                    assert(before[n] == (n < index && found@[n] || exists|j: int|
                        j < index && found@[j] && #[trigger] ancestor(list, n, j)));
                    if chain.contains(n) {
                        let m = choose|m: int| 0 <= m < chain.len() && chain[m] == n;
                        assert(above(list, index as int)(chain[m]));
                        assert(ancestor(list, n, index as int));
                    }
                    if ancestor(list, n, index as int) {
                        assert(above(list, index as int)(n));
                        assert(chain.contains(n));
                    }
                }
            }
        }
        index += 1;
    }
    let ghost keep = shown(list, collapsed@, Some(found@));
    let mut result: Vec<usize> = Vec::new();
    let mut next: usize = 0;
    assert(numbers(result@) =~= Seq::<int>::empty());
    while next < marks.len()
        invariant
            next <= marks@.len() == list.len(),
            keep == shown(list, collapsed@, Some(found@)),
            forall|k: int|
                0 <= k < marks@.len() ==> #[trigger] marks@[k] == (k < marks@.len() && found@[k]
                    || exists|j: int|
                    j < marks@.len() && found@[j] && #[trigger] ancestor(list, k, j)),
            numbers(result@) == kept(0, next as int, keep),
        decreases marks@.len() - next,
    {
        assert(keep(next as int) == marks@[next as int]);
        if marks[next] {
            result.push(next);
        }
        next += 1;
        assert(numbers(result@) =~= kept(0, next as int, keep));
    }
    result
}

/// The entries that are shown. `found` tells, of each entry, whether it is
/// what is searched for; where nothing is, collapsed entries hide what is
/// under them.
pub fn visible_entries(
    entries: &Vec<OutlineEntry>,
    collapsed: &BTreeSet<u64>,
    found: &Option<Vec<bool>>,
) -> (result: Vec<usize>)
    requires
        *found matches Some(found) ==> found@.len() == entries@.len(),
    ensures
        numbers(result@) == visible(headings(entries@), collapsed@, flags(*found)),
{
    match found {
        Some(found) => filtered_entries(entries, found, Ghost(collapsed@)),
        None => unfiltered_entries(entries, collapsed),
    }
}

/// The flags of a search.
pub open spec fn flags(found: Option<Vec<bool>>) -> Option<Seq<bool>> {
    match found {
        Some(found) => Some(found@),
        None => None,
    }
}

/// Which headings hold a text, in any case; none are searched where the text
/// is empty.
pub open spec fn found_in(list: Seq<Heading>, lowered: Seq<char>) -> Option<Seq<bool>> {
    if lowered.len() == 0 {
        None
    } else {
        Some(Seq::new(list.len(), |i: int| holds(lowercase(list[i].text), lowered)))
    }
}

fn find_entries(entries: &Vec<OutlineEntry>, filter: &str) -> (found: Option<Vec<bool>>)
    ensures
        flags(found) == found_in(headings(entries@), lowercase(filter@)),
{
    let lowered = filter.to_lowercase();
    if lowered.as_str().unicode_len() == 0 {
        return None;
    }
    let ghost list = headings(entries@);
    let mut found: Vec<bool> = Vec::new();
    let mut i: usize = 0;
    while i < entries.len()
        invariant
            i <= entries@.len(),
            list == headings(entries@),
            found@.len() == i,
            forall|k: int|
                0 <= k < i ==> #[trigger] found@[k] == holds(lowercase(list[k].text), lowered@),
        decreases entries@.len() - i,
    {
        assert(list[i as int] == entries@[i as int]@);
        let text = entries[i].text.to_lowercase();
        found.push(holds_text(text.as_str(), lowered.as_str()));
        i += 1;
    }
    assert(found@ =~= found_in(list, lowered@)->0);
    Some(found)
}

/// The headings that a search is after: those that it found, or all that are
/// shown where nothing is searched for.
pub open spec fn wanted(
    list: Seq<Heading>,
    collapsed: Set<u64>,
    found: Option<Seq<bool>>,
) -> Seq<int> {
    match found {
        None => visible(list, collapsed, None),
        Some(found) => kept(0, list.len() as int, |i: int| found[i]),
    }
}

/// Whether one of the listed headings has the ID.
pub open spec fn lists_id(list: Seq<Heading>, indices: Seq<int>, id: u64) -> bool {
    exists|k: int| 0 <= k < indices.len() && list[#[trigger] indices[k]].id == id
}

/// The selection after the headings changed: it stays on a wanted heading, and
/// else moves to the first of them.
pub open spec fn settled(list: Seq<Heading>, wanted: Seq<int>, selected: Option<u64>) -> Option<
    u64,
> {
    if selected is Some && lists_id(list, wanted, selected->0) {
        selected
    } else if wanted.len() > 0 {
        Some(list[wanted[0]].id)
    } else {
        None
    }
}

/// The place of an ID in a list of headings, or the first place.
pub open spec fn place_of(list: Seq<Heading>, indices: Seq<int>, selected: Option<u64>) -> int
    decreases indices.len(),
{
    if selected is None || !lists_id(list, indices, selected->0) {
        0
    } else if list[indices[0]].id == selected->0 {
        0
    } else {
        1 + place_of(list, indices.drop_first(), selected)
    }
}

/// What an outline panel holds.
pub struct Outline {
    pub generation: u64,
    pub source_id: u64,
    pub title: Seq<char>,
    pub entries: Seq<Heading>,
    pub selected: Option<u64>,
    pub collapsed: Set<u64>,
    pub filter: Seq<char>,
    pub follow_cursor: bool,
}

impl Outline {
    /// What the filter finds.
    pub open spec fn found(self) -> Option<Seq<bool>> {
        found_in(self.entries, lowercase(self.filter))
    }

    /// The headings that are shown.
    pub open spec fn visible(self) -> Seq<int> {
        visible(self.entries, self.collapsed, self.found())
    }

    /// The outline with its selection on a wanted heading.
    pub open spec fn settle(self) -> Outline {
        Outline {
            selected: settled(
                self.entries,
                wanted(self.entries, self.collapsed, self.found()),
                self.selected,
            ),
            ..self
        }
    }

    /// The index of the selected heading.
    pub open spec fn selected_index(self) -> Option<int> {
        match self.selected {
            Some(id) => index_of(self.entries, id),
            None => None,
        }
    }
}

/// The index of the first heading with the ID.
pub open spec fn index_of(list: Seq<Heading>, id: u64) -> Option<int>
    decreases list.len(),
{
    if list.len() == 0 {
        None
    } else if index_of(list.drop_last(), id) is Some {
        index_of(list.drop_last(), id)
    } else if list.last().id == id {
        Some(list.len() - 1)
    } else {
        None
    }
}

proof fn lemma_index_of(list: Seq<Heading>, id: u64)
    ensures
        index_of(list, id) is Some == has_id(list, id),
        index_of(list, id) matches Some(i) ==> 0 <= i < list.len() && list[i].id == id,
    decreases list.len(),
{
    if list.len() > 0 {
        let front = list.drop_last();
        lemma_index_of(front, id);
        if has_id(front, id) {
            let k = choose|k: int| 0 <= k < front.len() && #[trigger] front[k].id == id;
            assert(list[k].id == id);
        }
        if has_id(list, id) && list.last().id != id {
            let k = choose|k: int| 0 <= k < list.len() && #[trigger] list[k].id == id;
            assert(front[k].id == id);
        }
        if list.last().id == id {
            assert(list[list.len() - 1].id == id);
        }
    }
}

proof fn lemma_index_of_prefix(list: Seq<Heading>, count: int, id: u64)
    requires
        0 <= count <= list.len(),
        index_of(list.take(count), id) is Some,
    ensures
        index_of(list, id) == index_of(list.take(count), id),
    decreases list.len(),
{
    if count == list.len() {
        assert(list.take(count) =~= list);
    } else {
        assert(list.drop_last().take(count) =~= list.take(count));
        lemma_index_of_prefix(list.drop_last(), count, id);
    }
}

fn find_id(entries: &Vec<OutlineEntry>, id: OutlineEntryId) -> (index: Option<usize>)
    ensures
        index is Some == index_of(headings(entries@), id.0) is Some,
        index matches Some(i) ==> index_of(headings(entries@), id.0) == Some(i as int) && i
            < entries@.len() && entries@[i as int].id == id,
{
    let ghost list = headings(entries@);
    let mut i: usize = 0;
    assert(list.take(0) =~= Seq::<Heading>::empty());
    while i < entries.len()
        invariant
            i <= entries@.len(),
            list == headings(entries@),
            index_of(list.take(i as int), id.0) is None,
        decreases entries@.len() - i,
    {
        proof {
            assert(list.take(i + 1).drop_last() =~= list.take(i as int));
            assert(list.take(i + 1).last() == entries@[i as int]@);
            if entries@[i as int].id == id {
                lemma_index_of_prefix(list, i + 1, id.0);
            }
        }
        if entries[i].id.0 == id.0 {
            return Some(i);
        }
        i += 1;
    }
    assert(list.take(i as int) =~= list);
    None
}

proof fn lemma_lists_id_front(list: Seq<Heading>, indices: Seq<int>, id: u64)
    requires
        indices.len() > 0,
    ensures
        lists_id(list, indices, id) == (list[indices[0]].id == id || lists_id(
            list,
            indices.drop_first(),
            id,
        )),
{
    let rest = indices.drop_first();
    if lists_id(list, rest, id) {
        let k = choose|k: int| 0 <= k < rest.len() && list[#[trigger] rest[k]].id == id;
        assert(list[indices[k + 1]].id == id);
    }
    if lists_id(list, indices, id) && list[indices[0]].id != id {
        let k = choose|k: int| 0 <= k < indices.len() && list[#[trigger] indices[k]].id == id;
        assert(list[rest[k - 1]].id == id);
    }
}

fn find_place(
    entries: &Vec<OutlineEntry>,
    indices: &Vec<usize>,
    selected: Option<OutlineEntryId>,
) -> (place: Option<usize>)
    requires
        forall|k: int| 0 <= k < indices@.len() ==> #[trigger] indices@[k] < entries@.len(),
    ensures
        place is Some == (raw_id(selected) is Some && lists_id(
            headings(entries@),
            numbers(indices@),
            raw_id(selected)->0,
        )),
        place matches Some(k) ==> k < indices@.len() && entries@[indices@[k as int] as int].id
            == selected->0,
        (match place {
            Some(k) => k as int,
            None => 0,
        }) == place_of(headings(entries@), numbers(indices@), raw_id(selected)),
{
    let ghost list = headings(entries@);
    let ghost all = numbers(indices@);
    let id: u64 = match selected {
        Some(id) => id.0,
        None => {
            return None;
        },
    };
    let ghost listed = lists_id(list, all, id);
    let mut k: usize = 0;
    assert(all.skip(0) =~= all);
    while k < indices.len()
        invariant
            k <= indices@.len(),
            forall|k: int| 0 <= k < indices@.len() ==> #[trigger] indices@[k] < entries@.len(),
            list == headings(entries@),
            all == numbers(indices@),
            listed == lists_id(list, all, id),
            raw_id(selected) == Some(id),
            listed == lists_id(list, all.skip(k as int), id),
            listed ==> place_of(list, all, Some(id)) == k + place_of(
                list,
                all.skip(k as int),
                Some(id),
            ),
        decreases indices@.len() - k,
    {
        let ghost rest = all.skip(k as int);
        proof {
            assert(rest.drop_first() =~= all.skip(k + 1));
            lemma_lists_id_front(list, rest, id);
            assert(rest[0] == indices@[k as int]);
            assert(list[rest[0]] == entries@[rest[0]]@);
        }
        if entries[indices[k]].id.0 == id {
            return Some(k);
        }
        k += 1;
    }
    None
}

/// The number of an entry's ID.
pub open spec fn raw_id(selected: Option<OutlineEntryId>) -> Option<u64> {
    match selected {
        Some(id) => Some(id.0),
        None => None,
    }
}

/// Selects one of the entries that `found` tells of, or of those that are
/// shown where nothing is searched for: the one selected before where it is
/// among them, else the first.
pub fn settle_selection(
    entries: &Vec<OutlineEntry>,
    collapsed: &BTreeSet<u64>,
    found: &Option<Vec<bool>>,
    selected: Option<OutlineEntryId>,
) -> (result: Option<OutlineEntryId>)
    requires
        *found matches Some(found) ==> found@.len() == entries@.len(),
    ensures
        raw_id(result) == settled(
            headings(entries@),
            wanted(headings(entries@), collapsed@, flags(*found)),
            raw_id(selected),
        ),
{
    let ghost list = headings(entries@);
    let indices = match found {
        Some(found) => found_indices(found),
        None => visible_entries(entries, collapsed, &None),
    };
    let ghost all = wanted(list, collapsed@, flags(*found));
    proof {
        match found {
            Some(found) => lemma_kept(0, list.len() as int, |i: int| found@[i]),
            None => lemma_kept(0, list.len() as int, shown(list, collapsed@, None)),
        }
        assert(numbers(indices@) == all);
        assert forall|k: int| 0 <= k < indices@.len() implies #[trigger] indices@[k]
            < entries@.len() by {
            assert(all[k] == indices@[k]);
        }
    }
    match find_place(entries, &indices, selected) {
        Some(_) => selected,
        None => if indices.len() > 0 {
            assert(all[0] == indices@[0]);
            assert(list[all[0]] == entries@[all[0]]@);
            Some(entries[indices[0]].id)
        } else {
            None
        },
    }
}

fn found_indices(found: &Vec<bool>) -> (result: Vec<usize>)
    ensures
        numbers(result@) == kept(0, found@.len() as int, |i: int| found@[i]),
{
    let ghost keep = |i: int| found@[i];
    let mut result: Vec<usize> = Vec::new();
    let mut i: usize = 0;
    assert(numbers(result@) =~= Seq::<int>::empty());
    while i < found.len()
        invariant
            i <= found@.len(),
            keep == (|i: int| found@[i]),
            numbers(result@) == kept(0, i as int, keep),
        decreases found@.len() - i,
    {
        if found[i] {
            result.push(i);
        }
        i += 1;
        assert(numbers(result@) =~= kept(0, i as int, keep));
    }
    result
}

/// Whether headings stand under one.
pub open spec fn has_children(list: Seq<Heading>, i: int) -> bool {
    i + 1 < list.len() && list[i + 1].depth > list[i].depth
}

fn entry_has_children(entries: &Vec<OutlineEntry>, index: usize) -> (result: bool)
    requires
        index < entries@.len(),
    ensures
        result == has_children(headings(entries@), index as int),
{
    let ghost list = headings(entries@);
    assert(list[index as int] == entries@[index as int]@);
    if entries.len() - index > 1 {
        assert(list[index + 1] == entries@[index + 1]@);
        entries[index + 1].depth > entries[index].depth
    } else {
        false
    }
}

/// Whether the part of the document that a heading heads holds a place.
pub open spec fn covers(heading: Heading, cursor: Point) -> bool {
    heading.start.reaches(cursor) && cursor.reaches(heading.end)
}

/// The deepest heading over a place; of several, the last.
pub open spec fn innermost(list: Seq<Heading>, cursor: Point) -> Option<int>
    decreases list.len(),
{
    if list.len() == 0 {
        None
    } else {
        let before = innermost(list.drop_last(), cursor);
        if covers(list.last(), cursor) && (before is None || list[before->0].depth
            <= list.last().depth) {
            Some(list.len() - 1)
        } else {
            before
        }
    }
}

/// The heading over a place covers it; no other that does is deeper, and none
/// behind it is as deep.
pub proof fn the_heading_at_the_cursor_is_the_innermost(list: Seq<Heading>, cursor: Point)
    ensures
        innermost(list, cursor) is None ==> forall|i: int|
            0 <= i < list.len() ==> !covers(#[trigger] list[i], cursor),
        innermost(list, cursor) matches Some(found) ==> {
            &&& 0 <= found < list.len()
            &&& covers(list[found], cursor)
            &&& forall|i: int|
                0 <= i < list.len() && covers(#[trigger] list[i], cursor) ==> list[i].depth
                    <= list[found].depth
            &&& forall|i: int|
                found < i < list.len() && covers(#[trigger] list[i], cursor) ==> list[i].depth
                    < list[found].depth
        },
    decreases list.len(),
{
    if list.len() > 0 {
        let front = list.drop_last();
        the_heading_at_the_cursor_is_the_innermost(front, cursor);
        assert(forall|i: int| 0 <= i < front.len() ==> front[i] == list[i]);
        match innermost(front, cursor) {
            Some(found) => {
                assert forall|i: int|
                    0 <= i < list.len() - 1 && covers(#[trigger] list[i], cursor) implies list[i].depth
                    <= list[found].depth by {
                    assert(covers(front[i], cursor));
                }
                assert forall|i: int|
                    found < i < list.len() - 1 && covers(#[trigger] list[i], cursor) implies list[i].depth
                    < list[found].depth by {
                    assert(covers(front[i], cursor));
                }
            },
            None => {
                assert forall|i: int| 0 <= i < list.len() - 1 implies !covers(
                    #[trigger] list[i],
                    cursor,
                ) by {
                    assert(!covers(front[i], cursor));
                }
            },
        }
    }
}

fn find_innermost(entries: &Vec<OutlineEntry>, cursor: Point) -> (index: Option<usize>)
    ensures
        index is Some == innermost(headings(entries@), cursor) is Some,
        index matches Some(i) ==> i < entries@.len() && innermost(headings(entries@), cursor)
            == Some(i as int),
{
    let ghost list = headings(entries@);
    let mut best: Option<usize> = None;
    let mut i: usize = 0;
    assert(list.take(0) =~= Seq::<Heading>::empty());
    while i < entries.len()
        invariant
            i <= entries@.len(),
            list == headings(entries@),
            best is Some == innermost(list.take(i as int), cursor) is Some,
            best matches Some(k) ==> k < i && innermost(list.take(i as int), cursor) == Some(
                k as int,
            ),
        decreases entries@.len() - i,
    {
        proof {
            assert(list.take(i + 1).drop_last() =~= list.take(i as int));
            assert(list.take(i + 1).last() == entries@[i as int]@);
            assert(best matches Some(k) ==> list.take(i + 1)[k as int] == entries@[k as int]@);
        }
        let entry = &entries[i];
        if entry.range.start.at_or_before(&cursor) && cursor.at_or_before(&entry.range.end) {
            let deeper = match best {
                Some(k) => entries[k].depth <= entry.depth,
                None => true,
            };
            if deeper {
                best = Some(i);
            }
        }
        i += 1;
    }
    assert(list.take(i as int) =~= list);
    best
}

/// The outline panel after a valid snapshot came: one that is not newer
/// changes nothing, and one of another document starts afresh.
pub open spec fn refreshed(
    panel: Outline,
    generation: u64,
    source_id: u64,
    title: Seq<char>,
    entries: Seq<Heading>,
) -> Outline {
    if generation <= panel.generation {
        panel
    } else {
        let same = source_id == panel.source_id;
        Outline {
            generation,
            source_id,
            title,
            entries,
            selected: if same && panel.selected is Some && has_id(entries, panel.selected->0) {
                panel.selected
            } else {
                None
            },
            collapsed: Set::new(
                |id: u64| same && panel.collapsed.contains(id) && has_id(entries, id),
            ),
            filter: if same {
                panel.filter
            } else {
                Seq::empty()
            },
            follow_cursor: panel.follow_cursor,
        }.settle()
    }
}

/// One shown row of an outline.
pub struct OutlineRow<'a> {
    pub entry: &'a OutlineEntry,
    pub selected: bool,
    pub collapsed: bool,
    pub has_children: bool,
}

/// The plain values of an [`OutlineRow`].
pub struct RowView {
    pub entry: Heading,
    pub selected: bool,
    pub collapsed: bool,
    pub has_children: bool,
}

impl<'a> View for OutlineRow<'a> {
    type V = RowView;

    open spec fn view(&self) -> RowView {
        RowView {
            entry: self.entry@,
            selected: self.selected,
            collapsed: self.collapsed,
            has_children: self.has_children,
        }
    }
}

impl Outline {
    /// The row of a heading.
    pub open spec fn row(self, i: int) -> RowView {
        RowView {
            entry: self.entries[i],
            selected: self.selected == Some(self.entries[i].id),
            collapsed: self.collapsed.contains(self.entries[i].id),
            has_children: has_children(self.entries, i),
        }
    }

    /// The first of the rows that fit.
    pub open spec fn first_row(self, max_rows: int) -> int {
        let list = self.visible();
        centered_start_of(
            list.len() as int,
            place_of(self.entries, list, self.selected),
            max_rows,
        )
    }

    /// The rows that fit, around the selected one.
    pub open spec fn rows(self, max_rows: int) -> Seq<RowView> {
        let list = self.visible();
        Seq::new(
            least(list.len() as int, max_rows) as nat,
            |k: int| self.row(list[self.first_row(max_rows) + k]),
        )
    }

    /// The outline after the selection moved.
    pub open spec fn moved(self, delta: int) -> Outline {
        let list = self.visible();
        let selected = if list.len() == 0 {
            None
        } else {
            let current = place_of(self.entries, list, self.selected);
            Some(self.entries[list[stepped(current, delta, list.len() as int)]].id)
        };
        Outline { selected, ..self }
    }

    /// The outline after the selected heading was collapsed or expanded.
    pub open spec fn toggled(self) -> Outline {
        match self.selected_index() {
            Some(i) => if has_children(self.entries, i) {
                let id = self.selected->0;
                let collapsed = if self.collapsed.contains(id) {
                    self.collapsed.remove(id)
                } else {
                    self.collapsed.insert(id)
                };
                Outline { collapsed, ..self }.settle()
            } else {
                self
            },
            None => self,
        }
    }

    /// The heading above the selected one.
    pub open spec fn parent(self) -> Option<int> {
        match self.selected_index() {
            Some(i) => if ancestors(self.entries, i).len() > 0 {
                Some(ancestors(self.entries, i).last())
            } else {
                None
            },
            None => None,
        }
    }

    /// The outline after the cursor moved.
    pub open spec fn followed(self, cursor: Point) -> Outline {
        match innermost(self.entries, cursor) {
            Some(i) if self.follow_cursor => Outline {
                selected: Some(self.entries[i].id),
                collapsed: Set::new(
                    |id: u64|
                        self.collapsed.contains(id) && !lists_id(
                            self.entries,
                            ancestors(self.entries, i),
                            id,
                        ),
                ),
                ..self
            },
            _ => self,
        }
    }

    /// The headings on the way to a place.
    pub open spec fn trail(self, cursor: Point) -> Seq<int> {
        match innermost(self.entries, cursor) {
            Some(i) => ancestors(self.entries, i).push(i),
            None => Seq::empty(),
        }
    }
}

/// The outline panel.
#[derive(Debug)]
pub struct OutlinePanelState {
    generation: u64,
    source_id: u64,
    title: String,
    entries: Vec<OutlineEntry>,
    selected: Option<OutlineEntryId>,
    collapsed: BTreeSet<u64>,
    filter: String,
    follow_cursor: bool,
}

impl View for OutlinePanelState {
    type V = Outline;

    closed spec fn view(&self) -> Outline {
        Outline {
            generation: self.generation,
            source_id: self.source_id,
            title: self.title@,
            entries: headings(self.entries@),
            selected: raw_id(self.selected),
            collapsed: self.collapsed@,
            filter: self.filter@,
            follow_cursor: self.follow_cursor,
        }
    }
}

impl OutlinePanelState {
    pub fn new(snapshot: OutlineSnapshot) -> (result: Result<Self, OutlineError>)
        ensures
            match snapshot_fault(
                snapshot.generation,
                snapshot.title@,
                headings(snapshot.entries@),
            ) {
                Some(fault) => result == Err::<Self, OutlineError>(fault),
                None => result is Ok && result->Ok_0@ == (Outline {
                    generation: snapshot.generation,
                    source_id: snapshot.source_id,
                    title: snapshot.title@,
                    entries: headings(snapshot.entries@),
                    selected: if snapshot.entries@.len() > 0 {
                        Some(headings(snapshot.entries@)[0].id)
                    } else {
                        None
                    },
                    collapsed: Set::empty(),
                    filter: Seq::empty(),
                    follow_cursor: true,
                }),
            },
    {
        match validate_snapshot(&snapshot) {
            Ok(()) => {},
            Err(error) => {
                return Err(error);
            },
        }
        let selected = if snapshot.entries.len() > 0 {
            Some(snapshot.entries[0].id)
        } else {
            None
        };
        let filter = String::new();
        Ok(
            OutlinePanelState {
                generation: snapshot.generation,
                source_id: snapshot.source_id,
                title: snapshot.title,
                entries: snapshot.entries,
                selected,
                collapsed: BTreeSet::new(),
                filter,
                follow_cursor: true,
            },
        )
    }

    /// Takes a newer outline. The answer tells whether it was taken.
    pub fn apply_snapshot(&mut self, snapshot: OutlineSnapshot) -> (result: Result<
        bool,
        OutlineError,
    >)
        ensures
            match snapshot_fault(
                snapshot.generation,
                snapshot.title@,
                headings(snapshot.entries@),
            ) {
                Some(fault) => result == Err::<bool, OutlineError>(fault) && final(self)@ == old(
                    self,
                )@,
                None => result == Ok::<bool, OutlineError>(snapshot.generation > old(self)@.generation)
                    && final(self)@ == refreshed(
                    old(self)@,
                    snapshot.generation,
                    snapshot.source_id,
                    snapshot.title@,
                    headings(snapshot.entries@),
                ),
            },
    {
        match validate_snapshot(&snapshot) {
            Ok(()) => {},
            Err(error) => {
                return Err(error);
            },
        }
        if snapshot.generation <= self.generation {
            return Ok(false);
        }
        let ghost before = self@;
        let ghost list = headings(snapshot.entries@);
        let same_source = snapshot.source_id == self.source_id;
        let mut kept_ids: BTreeSet<u64> = BTreeSet::new();
        if same_source {
            let mut i: usize = 0;
            while i < snapshot.entries.len()
                invariant
                    i <= snapshot.entries@.len(),
                    list == headings(snapshot.entries@),
                    forall|id: u64|
                        kept_ids@.contains(id) == (self.collapsed@.contains(id) && has_id(
                            list.take(i as int),
                            id,
                        )),
                decreases snapshot.entries@.len() - i,
            {
                let id: u64 = snapshot.entries[i].id.0;
                proof {
                    lemma_has_id_next(list, i as int);
                    assert(list[i as int] == snapshot.entries@[i as int]@);
                }
                if self.collapsed.contains(&id) {
                    kept_ids.insert(id);
                }
                i += 1;
            }
            assert(list.take(i as int) =~= list);
        }
        if !same_source {
            self.filter = String::new();
        }
        self.selected = match self.selected {
            Some(id) => {
                proof {
                    lemma_index_of(list, id.0);
                }
                if same_source && find_id(&snapshot.entries, id).is_some() {
                    Some(id)
                } else {
                    None
                }
            },
            None => None,
        };
        self.collapsed = kept_ids;
        self.generation = snapshot.generation;
        self.source_id = snapshot.source_id;
        self.title = snapshot.title;
        self.entries = snapshot.entries;
        proof {
            let expected = refreshed(
                before,
                snapshot.generation,
                snapshot.source_id,
                snapshot.title@,
                list,
            );
            assert(self.collapsed@ =~= expected.collapsed);
        }
        self.ensure_selected_visible();
        Ok(true)
    }

    pub fn generation(&self) -> (generation: u64)
        ensures
            generation == self@.generation,
    {
        self.generation
    }

    pub fn source_id(&self) -> (source_id: u64)
        ensures
            source_id == self@.source_id,
    {
        self.source_id
    }

    pub fn title(&self) -> (title: &str)
        ensures
            title@ == self@.title,
    {
        self.title.as_str()
    }

    pub fn filter(&self) -> (filter: &str)
        ensures
            filter@ == self@.filter,
    {
        self.filter.as_str()
    }

    pub fn set_filter(&mut self, filter: String) -> (result: Result<(), OutlineError>)
        ensures
            if utf8_len(filter@) > MAX_FILTER_BYTES {
                result == Err::<(), OutlineError>(OutlineError::FilterTooLarge) && final(self)@
                    == old(self)@
            } else {
                result == Ok::<(), OutlineError>(()) && final(self)@ == (Outline {
                    filter: filter@,
                    ..old(self)@
                }).settle()
            },
    {
        if byte_len(filter.as_str()) > MAX_FILTER_BYTES {
            return Err(OutlineError::FilterTooLarge);
        }
        self.filter = filter;
        self.ensure_selected_visible();
        Ok(())
    }

    pub fn follow_cursor(&self) -> (follow: bool)
        ensures
            follow == self@.follow_cursor,
    {
        self.follow_cursor
    }

    pub fn toggle_follow_cursor(&mut self) -> (follow: bool)
        ensures
            follow == !old(self)@.follow_cursor,
            final(self)@ == (Outline { follow_cursor: !old(self)@.follow_cursor, ..old(self)@ }),
    {
        self.follow_cursor = !self.follow_cursor;
        self.follow_cursor
    }

    pub fn selected_entry(&self) -> (entry: Option<&OutlineEntry>)
        ensures
            entry is Some == self@.selected_index() is Some,
            entry matches Some(entry) ==> entry@ == self@.entries[self@.selected_index()->0],
    {
        match self.selected {
            Some(id) => self.entry(id),
            None => None,
        }
    }

    /// Selects an entry that is shown.
    pub fn select(&mut self, id: OutlineEntryId) -> (result: Result<(), OutlineError>)
        ensures
            if lists_id(old(self)@.entries, old(self)@.visible(), id.0) {
                result == Ok::<(), OutlineError>(()) && final(self)@ == (Outline {
                    selected: Some(id.0),
                    ..old(self)@
                })
            } else {
                result == Err::<(), OutlineError>(OutlineError::HiddenEntry) && final(self)@ == old(
                    self,
                )@
            },
    {
        let visible = self.visible_indices();
        match find_place(&self.entries, &visible, Some(id)) {
            Some(_) => {
                self.selected = Some(id);
                Ok(())
            },
            None => Err(OutlineError::HiddenEntry),
        }
    }

    /// Moves the selection over the shown entries. The answer tells whether
    /// it moved.
    pub fn move_selection(&mut self, delta: isize) -> (moved: bool)
        ensures
            final(self)@ == old(self)@.moved(delta as int),
            moved == ({
                let list = old(self)@.visible();
                let current = place_of(old(self)@.entries, list, old(self)@.selected);
                list.len() > 0 && stepped(current, delta as int, list.len() as int) != current
            }),
    {
        let visible = self.visible_indices();
        let ghost list = self@.visible();
        if visible.len() == 0 {
            self.selected = None;
            return false;
        }
        let current: usize = match find_place(&self.entries, &visible, self.selected) {
            Some(k) => k,
            None => 0,
        };
        let next: usize = step_by(current, delta, visible.len());
        assert(list[next as int] == visible@[next as int]);
        assert(self@.entries[list[next as int]] == self.entries@[list[next as int]]@);
        self.selected = Some(self.entries[visible[next]].id);
        next != current
    }

    /// Collapses the selected entry, or expands it.
    pub fn toggle_selected(&mut self) -> (toggled: bool)
        ensures
            final(self)@ == old(self)@.toggled(),
            toggled == (old(self)@.selected_index() matches Some(i) && has_children(
                old(self)@.entries,
                i,
            )),
    {
        let selected = match self.selected {
            Some(id) => id,
            None => {
                return false;
            },
        };
        let index = match find_id(&self.entries, selected) {
            Some(index) => index,
            None => {
                return false;
            },
        };
        if !entry_has_children(&self.entries, index) {
            return false;
        }
        let ghost before = self@;
        if !self.collapsed.remove(&selected.0) {
            assert(self.collapsed@ =~= before.collapsed);
            self.collapsed.insert(selected.0);
        }
        assert(self.collapsed@ =~= if before.collapsed.contains(selected.0) {
            before.collapsed.remove(selected.0)
        } else {
            before.collapsed.insert(selected.0)
        });
        self.ensure_selected_visible();
        true
    }

    pub fn collapse_selected(&mut self) -> (collapsed: bool)
        ensures
            collapsed == (old(self)@.selected_index() matches Some(i) && has_children(
                old(self)@.entries,
                i,
            ) && !old(self)@.collapsed.contains(old(self)@.selected->0)),
            final(self)@ == (if collapsed {
                Outline {
                    collapsed: old(self)@.collapsed.insert(old(self)@.selected->0),
                    ..old(self)@
                }
            } else {
                old(self)@
            }),
    {
        let selected = match self.selected {
            Some(id) => id,
            None => {
                return false;
            },
        };
        let index = match find_id(&self.entries, selected) {
            Some(index) => index,
            None => {
                return false;
            },
        };
        if !entry_has_children(&self.entries, index) || self.collapsed.contains(&selected.0) {
            return false;
        }
        self.collapsed.insert(selected.0);
        true
    }

    pub fn expand_selected(&mut self) -> (expanded: bool)
        ensures
            expanded == (old(self)@.selected matches Some(id) && old(self)@.collapsed.contains(id)),
            final(self)@ == (if expanded {
                Outline {
                    collapsed: old(self)@.collapsed.remove(old(self)@.selected->0),
                    ..old(self)@
                }
            } else {
                old(self)@
            }),
    {
        match self.selected {
            Some(id) => {
                let expanded = self.collapsed.remove(&id.0);
                assert(!expanded ==> self.collapsed@ =~= old(self).collapsed@);
                expanded
            },
            None => false,
        }
    }

    pub fn select_parent(&mut self) -> (moved: bool)
        ensures
            moved == old(self)@.parent() is Some,
            final(self)@ == (match old(self)@.parent() {
                Some(i) => Outline { selected: Some(old(self)@.entries[i].id), ..old(self)@ },
                None => old(self)@,
            }),
    {
        let selected = match self.selected {
            Some(id) => id,
            None => {
                return false;
            },
        };
        let index = match find_id(&self.entries, selected) {
            Some(index) => index,
            None => {
                return false;
            },
        };
        let chain = ancestor_indices(&self.entries, index);
        let ghost list = ancestors(self@.entries, index as int);
        if chain.len() == 0 {
            return false;
        }
        let parent: usize = chain[chain.len() - 1];
        proof {
            lemma_kept(0, index as int, above(self@.entries, index as int));
            assert(list.last() == parent);
            assert(self@.entries[parent as int] == self.entries@[parent as int]@);
        }
        self.selected = Some(self.entries[parent].id);
        true
    }

    /// Selects the entry over the cursor and expands those above it, where
    /// the panel follows the cursor. The answer tells whether the selection
    /// changed.
    pub fn select_for_cursor(&mut self, cursor: Point) -> (changed: bool)
        ensures
            final(self)@ == old(self)@.followed(cursor),
            changed == (final(self)@.selected != old(self)@.selected),
    {
        if !self.follow_cursor {
            return false;
        }
        let ghost before = self@;
        let index = match find_innermost(&self.entries, cursor) {
            Some(index) => index,
            None => {
                return false;
            },
        };
        let id = self.entries[index].id;
        let changed = match self.selected {
            Some(old_id) => old_id.0 != id.0,
            None => true,
        };
        self.selected = Some(id);
        let chain = ancestor_indices(&self.entries, index);
        let ghost list = ancestors(before.entries, index as int);
        proof {
            lemma_kept(0, index as int, above(before.entries, index as int));
            assert(before.entries[index as int] == self.entries@[index as int]@);
            assert(list.take(0) =~= Seq::<int>::empty());
        }
        let mut k: usize = 0;
        while k < chain.len()
            invariant
                k <= chain@.len(),
                index < self.entries@.len(),
                before.entries == headings(self.entries@),
                list == numbers(chain@),
                forall|n: int| 0 <= n < list.len() ==> 0 <= #[trigger] list[n] < index,
                self@ == (Outline {
                    selected: Some(id.0),
                    collapsed: self.collapsed@,
                    ..before
                }),
                forall|id: u64| #[trigger]
                    self.collapsed@.contains(id) == (before.collapsed.contains(id) && !lists_id(
                        before.entries,
                        list.take(k as int),
                        id,
                    )),
            decreases chain@.len() - k,
        {
            proof {
                assert(list[k as int] == chain@[k as int]);
                assert(before.entries[list[k as int]] == self.entries@[list[k as int]]@);
                lemma_lists_id_next(before.entries, list, k as int);
            }
            let gone: u64 = self.entries[chain[k]].id.0;
            let ghost held = self.collapsed@;
            self.collapsed.remove(&gone);
            proof {
                assert(self.collapsed@ =~= held.remove(gone));
                assert forall|id: u64|
                    self.collapsed@.contains(id) == (before.collapsed.contains(id) && !lists_id(
                        before.entries,
                        list.take(k + 1),
                        id,
                    )) by {
                    assert(held.contains(id) == (before.collapsed.contains(id) && !lists_id(
                        before.entries,
                        list.take(k as int),
                        id,
                    )));
                }
            }
            k += 1;
        }
        proof {
            assert(list.take(k as int) =~= list);
            assert(self@.collapsed =~= before.followed(cursor).collapsed);
        }
        changed
    }

    /// The texts of the entries on the way to the cursor.
    pub fn breadcrumbs(&self, cursor: Point) -> (trail: Vec<&str>)
        ensures
            trail@.len() == self@.trail(cursor).len(),
            forall|k: int|
                0 <= k < trail@.len() ==> (#[trigger] trail@[k])@ == self@.entries[self@.trail(
                    cursor,
                )[k]].text,
    {
        let mut trail: Vec<&str> = Vec::new();
        let index = match find_innermost(&self.entries, cursor) {
            Some(index) => index,
            None => {
                return trail;
            },
        };
        let mut chain = ancestor_indices(&self.entries, index);
        proof {
            lemma_kept(0, index as int, above(self@.entries, index as int));
        }
        let ghost above_it = numbers(chain@);
        chain.push(index);
        let ghost list = self@.trail(cursor);
        assert(numbers(chain@) =~= list);
        let mut k: usize = 0;
        while k < chain.len()
            invariant
                k <= chain@.len(),
                index < self.entries@.len(),
                list == numbers(chain@),
                forall|n: int| 0 <= n < list.len() ==> 0 <= #[trigger] list[n] <= index,
                trail@.len() == k,
                forall|n: int|
                    0 <= n < k ==> (#[trigger] trail@[n])@ == self@.entries[list[n]].text,
            decreases chain@.len() - k,
        {
            assert(list[k as int] == chain@[k as int]);
            assert(self@.entries[list[k as int]] == self.entries@[list[k as int]]@);
            trail.push(self.entries[chain[k]].text.as_str());
            k += 1;
        }
        trail
    }

    /// The rows that fit, around the selected one.
    pub fn rows(&self, max_rows: usize) -> (rows: Vec<OutlineRow<'_>>)
        ensures
            row_views_of(rows@) == self@.rows(max_rows as int),
    {
        let mut rows: Vec<OutlineRow<'_>> = Vec::new();
        let visible = self.visible_indices();
        let ghost list = self@.visible();
        if visible.len() == 0 || max_rows == 0 {
            assert(row_views_of(rows@) =~= self@.rows(max_rows as int));
            return rows;
        }
        let selected: usize = match find_place(&self.entries, &visible, self.selected) {
            Some(k) => k,
            None => 0,
        };
        let start: usize = centered_start(visible.len(), selected, max_rows);
        proof {
            centered_window_shows_the_selection(
                list.len() as int,
                selected as int,
                max_rows as int,
            );
        }
        let end: usize = if max_rows < visible.len() - start {
            start + max_rows
        } else {
            visible.len()
        };
        let mut k: usize = start;
        while k < end
            invariant
                start <= k <= end <= visible@.len(),
                start == self@.first_row(max_rows as int),
                list == self@.visible(),
                list == numbers(visible@),
                forall|n: int| 0 <= n < list.len() ==> 0 <= #[trigger] list[n] < self.entries@.len(),
                rows@.len() == k - start,
                forall|n: int|
                    0 <= n < rows@.len() ==> (#[trigger] rows@[n])@ == self@.row(list[start + n]),
            decreases end - k,
        {
            let index: usize = visible[k];
            assert(list[k as int] == index);
            assert(self@.entries[index as int] == self.entries@[index as int]@);
            let entry = &self.entries[index];
            let is_selected = match self.selected {
                Some(id) => id.0 == entry.id.0,
                None => false,
            };
            rows.push(
                OutlineRow {
                    entry,
                    selected: is_selected,
                    collapsed: self.collapsed.contains(&entry.id.0),
                    has_children: entry_has_children(&self.entries, index),
                },
            );
            k += 1;
        }
        assert(row_views_of(rows@) =~= self@.rows(max_rows as int));
        rows
    }

    /// The entry whose row the panel shows at a cell.
    pub fn entry_id_at(&self, area: Rect, position: Position) -> (id: Option<OutlineEntryId>)
        ensures
            raw_id(id) == ({
                let inner = Rect::spec_new(
                    coordinate(area.x + 1) as u16,
                    coordinate(area.y + 1) as u16,
                    above_zero(area.width - 2) as u16,
                    above_zero(area.height - 2) as u16,
                );
                let rows = self@.rows(inner.height as int);
                let row = position.y - inner.y;
                if inner.holds(position.x as int, position.y as int) && row < rows.len() {
                    Some(rows[row].entry.id)
                } else {
                    None
                }
            }),
    {
        let inner = Rect::new(
            area.x.saturating_add(1),
            area.y.saturating_add(1),
            area.width.saturating_sub(2),
            area.height.saturating_sub(2),
        );
        if inner.is_empty() || !inner.contains(position) {
            return None;
        }
        let rows = self.rows(inner.height as usize);
        let row: usize = (position.y - inner.y) as usize;
        if row < rows.len() {
            assert(row_views_of(rows@)[row as int] == rows@[row as int]@);
            Some(rows[row].entry.id)
        } else {
            assert(row_views_of(rows@).len() == rows@.len());
            None
        }
    }

    pub fn entry(&self, id: OutlineEntryId) -> (entry: Option<&OutlineEntry>)
        ensures
            entry is Some == index_of(self@.entries, id.0) is Some,
            entry matches Some(entry) ==> entry@ == self@.entries[index_of(
                self@.entries,
                id.0,
            )->0],
    {
        match find_id(&self.entries, id) {
            Some(index) => {
                assert(self@.entries[index as int] == self.entries@[index as int]@);
                Some(&self.entries[index])
            },
            None => None,
        }
    }

    fn visible_indices(&self) -> (result: Vec<usize>)
        ensures
            numbers(result@) == self@.visible(),
            forall|k: int| 0 <= k < result@.len() ==> #[trigger] result@[k] < self.entries@.len(),
            forall|k: int|
                0 <= k < self@.visible().len() ==> 0 <= #[trigger] self@.visible()[k]
                    < self.entries@.len(),
    {
        let found = find_entries(&self.entries, self.filter.as_str());
        let result = visible_entries(&self.entries, &self.collapsed, &found);
        proof {
            let list = self@.entries;
            lemma_kept(0, list.len() as int, shown(list, self.collapsed@, flags(found)));
            assert forall|k: int| 0 <= k < result@.len() implies #[trigger] result@[k]
                < self.entries@.len() by {
                assert(numbers(result@)[k] == result@[k]);
            }
        }
        result
    }

    fn ensure_selected_visible(&mut self)
        ensures
            final(self)@ == old(self)@.settle(),
            final(self).entries@ == old(self).entries@,
    {
        let found = find_entries(&self.entries, self.filter.as_str());
        self.selected = settle_selection(&self.entries, &self.collapsed, &found, self.selected);
    }
}

/// The plain values of some rows.
pub open spec fn row_views_of(rows: Seq<OutlineRow<'_>>) -> Seq<RowView> {
    Seq::new(rows.len(), |i: int| rows[i]@)
}

proof fn lemma_has_id_next(list: Seq<Heading>, i: int)
    requires
        0 <= i < list.len(),
    ensures
        forall|id: u64|
            has_id(list.take(i + 1), id) == (has_id(list.take(i), id) || id == list[i].id),
{
    let before = list.take(i);
    let seen = list.take(i + 1);
    assert forall|id: u64| has_id(seen, id) == (has_id(before, id) || id == list[i].id) by {
        if has_id(before, id) {
            let k = choose|k: int| 0 <= k < before.len() && #[trigger] before[k].id == id;
            assert(seen[k].id == id);
        }
        if id == list[i].id {
            assert(seen[i].id == id);
        }
        if has_id(seen, id) {
            let k = choose|k: int| 0 <= k < seen.len() && #[trigger] seen[k].id == id;
            if k < i {
                assert(before[k].id == id);
            }
        }
    }
}

proof fn lemma_lists_id_next(list: Seq<Heading>, indices: Seq<int>, i: int)
    requires
        0 <= i < indices.len(),
    ensures
        forall|id: u64|
            lists_id(list, indices.take(i + 1), id) == (lists_id(list, indices.take(i), id)
                || list[indices[i]].id == id),
{
    let before = indices.take(i);
    let seen = indices.take(i + 1);
    assert forall|id: u64|
        lists_id(list, seen, id) == (lists_id(list, before, id) || list[indices[i]].id == id) by {
        if lists_id(list, before, id) {
            let k = choose|k: int| 0 <= k < before.len() && list[#[trigger] before[k]].id == id;
            assert(list[seen[k]].id == id);
        }
        if list[indices[i]].id == id {
            assert(list[seen[i]].id == id);
        }
        if lists_id(list, seen, id) {
            let k = choose|k: int| 0 <= k < seen.len() && list[#[trigger] seen[k]].id == id;
            if k < i {
                assert(list[before[k]].id == id);
            }
        }
    }
}

/// The blanks before the text of a row.
pub open spec fn indent(depth: int) -> Seq<char> {
    Seq::new((2 * depth) as nat, |i: int| ' ')
}

/// Blanks for a row of the given depth.
pub fn indentation(depth: usize) -> (text: String)
    ensures
        text@ == indent(depth as int),
{
    let mut text = String::new();
    let mut i: usize = 0;
    assert(text@ =~= indent(0));
    while i < depth
        invariant
            i <= depth,
            text@ == indent(i as int),
        decreases depth - i,
    {
        text.push(' ');
        text.push(' ');
        i += 1;
        assert(text@ =~= indent(i as int));
    }
    text
}

/// The mark before an entry.
pub open spec fn marker(row: RowView) -> Seq<char> {
    if !row.has_children {
        "  "@
    } else if row.collapsed {
        "\u{25b8} "@
    } else {
        "\u{25be} "@
    }
}

/// A row as it is drawn.
pub open spec fn drawn_row(row: RowView) -> (Seq<Seq<Seq<char>>>, StyleParts) {
    (
        seq![seq![indent(row.entry.depth as int), marker(row), row.entry.text]],
        if row.selected {
            with_modifiers(no_parts(), REVERSED)
        } else {
            no_parts()
        },
    )
}

impl Outline {
    /// The title over the panel.
    pub open spec fn heading(self) -> Seq<char> {
        if self.filter.len() == 0 {
            " Outline "@ + self.title + " "@
        } else {
            " Outline /"@ + self.filter + " "@
        }
    }

    /// What the panel draws.
    pub open spec fn strokes(self, area: Rect) -> Seq<Stroke> {
        let inner = area.spec_inside_border();
        let rows = self.rows(inner.height as int);
        seq![
            Stroke::Frame {
                area,
                title: self.heading(),
                style: no_parts(),
                border: no_parts(),
            },
            Stroke::List { area: inner, rows: Seq::new(rows.len(), |i: int| drawn_row(rows[i])) },
        ]
    }
}

/// Draws an outline panel.
pub struct OutlinePanelWidget<'a> {
    panel: &'a OutlinePanelState,
}

impl<'a> OutlinePanelWidget<'a> {
    /// The outline that is drawn.
    pub closed spec fn outline(self) -> Outline {
        self.panel@
    }

    pub fn new(panel: &'a OutlinePanelState) -> (widget: Self)
        ensures
            widget.outline() == panel@,
    {
        OutlinePanelWidget { panel }
    }

    /// Draws the panel on the buffer.
    pub fn render(self, area: Rect, buffer: &mut Buffer)
        requires
            area.x + area.width <= u16::MAX,
            area.y + area.height <= u16::MAX,
        ensures
            buffer_area(*final(buffer)) == buffer_area(*old(buffer)),
            buffer_cells(*final(buffer)) == drawn(
                buffer_cells(*old(buffer)),
                buffer_area(*old(buffer)),
                self.outline().strokes(area),
            ),
    {
        let title = if self.panel.filter.as_str().unicode_len() == 0 {
            let mut title = " Outline ".to_string();
            title.append(self.panel.title.as_str());
            title.append(" ");
            title
        } else {
            let mut title = " Outline /".to_string();
            title.append(self.panel.filter.as_str());
            title.append(" ");
            title
        };
        let inner = area.inside_border();
        let rows = self.panel.rows(inner.height as usize);
        let ghost shown_rows = self.outline().rows(inner.height as int);
        let mut items: Vec<StyledRow> = Vec::new();
        let mut i: usize = 0;
        while i < rows.len()
            invariant
                i <= rows@.len(),
                row_views_of(rows@) == shown_rows,
                items@.len() == i,
                forall|k: int| 0 <= k < i ==> #[trigger] row_views(items@)[k] == drawn_row(shown_rows[k]),
            decreases rows@.len() - i,
        {
            let row = &rows[i];
            assert(shown_rows[i as int] == row@);
            let mark = if row.has_children {
                if row.collapsed {
                    "\u{25b8} "
                } else {
                    "\u{25be} "
                }
            } else {
                "  "
            };
            let mut parts: Vec<String> = Vec::new();
            parts.push(indentation(row.entry.depth));
            parts.push(mark.to_string());
            parts.push(row.entry.text.clone());
            let style = if row.selected {
                add_modifiers(plain_style(), REVERSED)
            } else {
                plain_style()
            };
            let ghost before = items@;
            items.push(line_row(parts, style));
            proof {
                assert(texts(parts@) =~= drawn_row(row@).0[0]);
                assert forall|k: int| 0 <= k < i + 1 implies #[trigger] row_views(items@)[k]
                    == drawn_row(shown_rows[k]) by {
                    if k < i {
                        assert(row_views(before)[k] == row_views(items@)[k]);
                    }
                }
            }
            i += 1;
        }
        let mut list: Vec<Paint> = Vec::new();
        list.push(Paint::Frame { area, title, style: plain_style(), border: plain_style() });
        list.push(Paint::List { area: inner, rows: items });
        proof {
            assert(row_views(items@) =~= Seq::new(
                shown_rows.len(),
                |i: int| drawn_row(shown_rows[i]),
            ));
            assert(strokes(list@) =~= self.outline().strokes(area));
        }
        paint(buffer, &list);
    }
}

impl Outline {
    /// What holds of every outline: its headings, its title and its filter are
    /// valid, and only headings that it has are collapsed or selected.
    pub open spec fn valid(self) -> bool {
        &&& snapshot_fault(self.generation, self.title, self.entries) is None
        &&& utf8_len(self.filter) <= MAX_FILTER_BYTES
        &&& forall|id: u64| #[trigger]
            self.collapsed.contains(id) ==> has_id(self.entries, id)
        &&& self.selected matches Some(id) ==> has_id(self.entries, id)
    }
}

proof fn lemma_wanted(panel: Outline)
    ensures
        forall|k: int|
            0 <= k < wanted(panel.entries, panel.collapsed, panel.found()).len() ==> 0
                <= #[trigger] wanted(panel.entries, panel.collapsed, panel.found())[k]
                < panel.entries.len() && panel.visible().contains(
                wanted(panel.entries, panel.collapsed, panel.found())[k],
            ),
        panel.visible().len() > 0 ==> wanted(
            panel.entries,
            panel.collapsed,
            panel.found(),
        ).len() > 0,
        forall|k: int|
            0 <= k < panel.visible().len() ==> 0 <= #[trigger] panel.visible()[k]
                < panel.entries.len(),
{
    let list = panel.entries;
    let count = list.len() as int;
    let keep = shown(list, panel.collapsed, panel.found());
    lemma_kept(0, count, keep);
    let all = wanted(list, panel.collapsed, panel.found());
    match panel.found() {
        None => {},
        Some(found) => {
            let hit = |i: int| found[i];
            lemma_kept(0, count, hit);
            assert(all == kept(0, count, hit));
            assert forall|k: int| 0 <= k < all.len() implies 0 <= #[trigger] all[k] < count
                && panel.visible().contains(all[k]) by {
                assert(hit(all[k]));
                assert(keep(all[k]));
            }
            if panel.visible().len() > 0 {
                let first = panel.visible()[0];
                assert(keep(first));
                if found[first] {
                    assert(hit(first));
                    assert(all.contains(first));
                } else {
                    let j = choose|j: int|
                        j < list.len() && found[j] && #[trigger] ancestor(list, first, j);
                    assert(hit(j));
                    assert(all.contains(j));
                }
            }
        },
    }
}

/// After the headings, the filter, or what is collapsed changed, the selection
/// is on a heading that is shown, unless none is.
pub proof fn the_settled_selection_is_shown(panel: Outline)
    ensures
        panel.settle().visible() == panel.visible(),
        panel.visible().len() == 0 ==> panel.settle().selected is None,
        panel.visible().len() > 0 ==> panel.settle().selected is Some && lists_id(
            panel.entries,
            panel.visible(),
            panel.settle().selected->0,
        ),
{
    lemma_wanted(panel);
    let list = panel.entries;
    let all = wanted(list, panel.collapsed, panel.found());
    let shown_list = panel.visible();
    if panel.visible().len() > 0 {
        let id = panel.settle().selected->0;
        if panel.selected is Some && lists_id(list, all, panel.selected->0) {
            let k = choose|k: int| 0 <= k < all.len() && list[#[trigger] all[k]].id == id;
            assert(shown_list.contains(all[k]));
            let m = choose|m: int| 0 <= m < shown_list.len() && shown_list[m] == all[k];
            assert(list[shown_list[m]].id == id);
        } else {
            assert(shown_list.contains(all[0]));
            let m = choose|m: int| 0 <= m < shown_list.len() && shown_list[m] == all[0];
            assert(list[shown_list[m]].id == id);
        }
    } else if all.len() > 0 {
        assert(shown_list.contains(all[0]));
    }
}

proof fn lemma_place_of(list: Seq<Heading>, indices: Seq<int>, selected: Option<u64>)
    requires
        selected is Some,
        lists_id(list, indices, selected->0),
    ensures
        0 <= place_of(list, indices, selected) < indices.len(),
        list[indices[place_of(list, indices, selected)]].id == selected->0,
    decreases indices.len(),
{
    lemma_lists_id_front(list, indices, selected->0);
    if list[indices[0]].id != selected->0 {
        lemma_place_of(list, indices.drop_first(), selected);
    }
}

/// A selection that is shown stands in the rows, however few fit.
pub proof fn the_rows_hold_the_selection(panel: Outline, max_rows: int)
    requires
        max_rows > 0,
        panel.selected is Some,
        lists_id(panel.entries, panel.visible(), panel.selected->0),
    ensures
        exists|k: int|
            0 <= k < panel.rows(max_rows).len() && (#[trigger] panel.rows(max_rows)[k]).selected
                && panel.rows(max_rows)[k].entry.id == panel.selected->0,
{
    let list = panel.visible();
    lemma_place_of(panel.entries, list, panel.selected);
    let place = place_of(panel.entries, list, panel.selected);
    centered_window_shows_the_selection(list.len() as int, place, max_rows);
    let k = place - panel.first_row(max_rows);
    assert(panel.rows(max_rows)[k] == panel.row(list[place]));
}

proof fn lemma_settle_valid(panel: Outline)
    requires
        snapshot_fault(panel.generation, panel.title, panel.entries) is None,
        utf8_len(panel.filter) <= MAX_FILTER_BYTES,
        forall|id: u64| #[trigger]
            panel.collapsed.contains(id) ==> has_id(panel.entries, id),
    ensures
        panel.settle().valid(),
{
    lemma_wanted(panel);
    the_settled_selection_is_shown(panel);
    if panel.visible().len() > 0 {
        let id = panel.settle().selected->0;
        let k = choose|k: int|
            0 <= k < panel.visible().len() && panel.entries[#[trigger] panel.visible()[k]].id == id;
        assert(panel.entries[panel.visible()[k]].id == id);
    }
}

/// Whatever is done to a valid outline, it stays valid.
pub proof fn outlines_stay_valid(
    panel: Outline,
    generation: u64,
    source_id: u64,
    title: Seq<char>,
    entries: Seq<Heading>,
    filter: Seq<char>,
    delta: int,
    cursor: Point,
)
    requires
        panel.valid(),
    ensures
        snapshot_fault(generation, title, entries) is None ==> refreshed(
            panel,
            generation,
            source_id,
            title,
            entries,
        ).valid(),
        utf8_len(filter) <= MAX_FILTER_BYTES ==> (Outline { filter, ..panel }).settle().valid(),
        panel.moved(delta).valid(),
        panel.toggled().valid(),
        panel.followed(cursor).valid(),
        panel.parent() matches Some(i) ==> (Outline {
            selected: Some(panel.entries[i].id),
            ..panel
        }).valid(),
{
    lemma_utf8_empty();
    if snapshot_fault(generation, title, entries) is None && generation > panel.generation {
        let same = source_id == panel.source_id;
        lemma_settle_valid(
            Outline {
                generation,
                source_id,
                title,
                entries,
                selected: if same && panel.selected is Some && has_id(
                    entries,
                    panel.selected->0,
                ) {
                    panel.selected
                } else {
                    None
                },
                collapsed: Set::new(
                    |id: u64| same && panel.collapsed.contains(id) && has_id(entries, id),
                ),
                filter: if same {
                    panel.filter
                } else {
                    Seq::empty()
                },
                follow_cursor: panel.follow_cursor,
            },
        );
    }
    if utf8_len(filter) <= MAX_FILTER_BYTES {
        lemma_settle_valid(Outline { filter, ..panel });
    }
    lemma_wanted(panel);
    let list = panel.visible();
    if list.len() > 0 {
        if panel.selected is Some && lists_id(panel.entries, list, panel.selected->0) {
            lemma_place_of(panel.entries, list, panel.selected);
        }
        let current = place_of(panel.entries, list, panel.selected);
        let next = stepped(current, delta, list.len() as int);
        assert(panel.entries[list[next]].id == panel.moved(delta).selected->0);
    }
    if let Some(i) = panel.selected_index() {
        let id = panel.selected->0;
        lemma_index_of(panel.entries, id);
        lemma_settle_valid(Outline { collapsed: panel.collapsed.insert(id), ..panel });
        lemma_settle_valid(Outline { collapsed: panel.collapsed.remove(id), ..panel });
        lemma_kept(0, i, above(panel.entries, i));
        if let Some(p) = panel.parent() {
            let chain = ancestors(panel.entries, i);
            assert(chain[chain.len() - 1] == p);
            assert(panel.entries[p].id == panel.entries[p].id);
        }
    }
    the_heading_at_the_cursor_is_the_innermost(panel.entries, cursor);
    if let Some(i) = innermost(panel.entries, cursor) {
        assert(panel.entries[i].id == panel.entries[i].id);
    }
}

proof fn lemma_utf8_empty()
    ensures
        utf8_len(Seq::<char>::empty()) == 0,
{
}

/// An outline that is not newer than the one shown changes nothing.
pub proof fn stale_outlines_change_nothing(
    panel: Outline,
    generation: u64,
    source_id: u64,
    title: Seq<char>,
    entries: Seq<Heading>,
)
    requires
        generation <= panel.generation,
    ensures
        refreshed(panel, generation, source_id, title, entries) == panel,
{
}

/// The way to a place ends at a heading that covers it, and leads from each
/// heading to one that stands below it.
pub proof fn breadcrumbs_lead_to_the_cursor(panel: Outline, cursor: Point)
    ensures
        panel.trail(cursor).len() == 0 ==> forall|i: int|
            0 <= i < panel.entries.len() ==> !covers(#[trigger] panel.entries[i], cursor),
        panel.trail(cursor).len() > 0 ==> covers(
            panel.entries[panel.trail(cursor).last()],
            cursor,
        ),
        forall|j: int, k: int|
            0 <= j < k < panel.trail(cursor).len() ==> ancestor(
                panel.entries,
                #[trigger] panel.trail(cursor)[j],
                #[trigger] panel.trail(cursor)[k],
            ),
{
    the_heading_at_the_cursor_is_the_innermost(panel.entries, cursor);
    if let Some(i) = innermost(panel.entries, cursor) {
        lemma_kept(0, i, above(panel.entries, i));
        let chain = ancestors(panel.entries, i);
        let trail = panel.trail(cursor);
        assert forall|j: int, k: int| 0 <= j < k < trail.len() implies ancestor(
            panel.entries,
            #[trigger] trail[j],
            #[trigger] trail[k],
        ) by {
            assert(above(panel.entries, i)(chain[j]));
            if k < chain.len() {
                assert(chain[j] < chain[k]);
                assert(above(panel.entries, i)(chain[k]));
            }
        }
    }
}

proof fn lemma_ids_are_distinct(list: Seq<Heading>)
    requires
        heading_fault(list) is None,
    ensures
        forall|i: int, j: int|
            0 <= i < j < list.len() ==> (#[trigger] list[i]).id != (#[trigger] list[j]).id,
    decreases list.len(),
{
    if list.len() > 0 {
        let front = list.drop_last();
        lemma_ids_are_distinct(front);
        assert forall|i: int, j: int| 0 <= i < j < list.len() implies (#[trigger] list[i]).id != (
        #[trigger] list[j]).id by {
            assert(front[i] == list[i]);
            if j < front.len() {
                assert(front[j] == list[j]);
            } else {
                assert(!has_id(front, list.last().id));
            }
        }
    }
}

proof fn lemma_toggle_keeps_the_selection(panel: Outline, i: int, collapsed: Set<u64>)
    requires
        panel.valid(),
        panel.found() is None,
        0 <= i < panel.entries.len(),
        panel.selected == Some(panel.entries[i].id),
        panel.visible().contains(i),
        collapsed == panel.collapsed.insert(panel.entries[i].id) || collapsed
            == panel.collapsed.remove(panel.entries[i].id),
    ensures
        (Outline { collapsed, ..panel }).settle() == (Outline { collapsed, ..panel }),
        (Outline { collapsed, ..panel }).visible().contains(i),
{
    let list = panel.entries;
    lemma_ids_are_distinct(list);
    let next = Outline { collapsed, ..panel };
    let keep = shown(list, panel.collapsed, None);
    let next_keep = shown(list, collapsed, None);
    lemma_kept(0, list.len() as int, keep);
    lemma_kept(0, list.len() as int, next_keep);
    let k = choose|k: int| 0 <= k < panel.visible().len() && panel.visible()[k] == i;
    assert(keep(panel.visible()[k]));
    assert forall|a: int| #[trigger] ancestor(list, a, i) implies !collapsed.contains(
        list[a].id,
    ) by {
        assert(list[a].id != list[i].id);
    }
    assert(next_keep(i));
    assert(next.visible().contains(i));
    let m = choose|m: int| 0 <= m < next.visible().len() && next.visible()[m] == i;
    assert(list[next.visible()[m]].id == list[i].id);
}

/// Collapsing or expanding the selected heading twice changes nothing.
pub proof fn toggling_twice_changes_nothing(panel: Outline, i: int)
    requires
        panel.valid(),
        panel.found() is None,
        panel.selected_index() == Some(i),
        panel.visible().contains(i),
    ensures
        panel.toggled().toggled() == panel,
{
    let id = panel.selected->0;
    lemma_index_of(panel.entries, id);
    if has_children(panel.entries, i) {
        let collapsed = if panel.collapsed.contains(id) {
            panel.collapsed.remove(id)
        } else {
            panel.collapsed.insert(id)
        };
        lemma_toggle_keeps_the_selection(panel, i, collapsed);
        let once = Outline { collapsed, ..panel };
        assert(panel.toggled() == once);
        outlines_stay_valid(panel, 0, 0, Seq::empty(), Seq::empty(), Seq::empty(), 0, Point {
            row: 0,
            column: 0,
        });
        assert(panel.collapsed =~= once.collapsed.insert(id) || panel.collapsed
            =~= once.collapsed.remove(id));
        lemma_toggle_keeps_the_selection(once, i, panel.collapsed);
        let back = if collapsed.contains(id) {
            collapsed.remove(id)
        } else {
            collapsed.insert(id)
        };
        assert(back =~= panel.collapsed);
    }
}

} // verus!
