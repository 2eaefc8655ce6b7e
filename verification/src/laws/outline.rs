//! Laws of outlines.

use vstd::prelude::*;

use crate::features::context::Command;
use crate::features::outline_panel::{symbol_row, Marked, Symbol};
use crate::geometry::{lemma_kept, Point};
use crate::outline_panel::{
    above, ancestor, ancestors, drawn_row, has_children, has_id, heading_fault, innermost, lists_id,
    place_of, refreshed, shown, snapshot_fault, visible, Heading, Outline, RowView,
    MAX_OUTLINE_ENTRIES, MAX_OUTLINE_TEXT_BYTES,
};
use crate::paint::{no_parts, with_modifiers, REVERSED};
use crate::text::utf8_len;

verus! {

/// No two entries have one number.
pub open spec fn distinct_ids(list: Seq<Heading>) -> bool {
    forall|i: int, j: int|
        0 <= i < j < list.len() ==> (#[trigger] list[i]).id != (#[trigger] list[j]).id
}

/// An entry that can stand in an outline: on one line, not too long, with
/// ranges that end behind their start.
pub open spec fn sound_entry(entry: Heading) -> bool {
    &&& !entry.text.contains('\n')
    &&& !entry.text.contains('\r')
    &&& utf8_len(entry.text) <= MAX_OUTLINE_TEXT_BYTES
    &&& entry.start.reaches(entry.end)
    &&& entry.selection_start.reaches(entry.selection_end)
}

/// An entry is at most one level deeper than the one in front of it.
pub open spec fn one_level_down(list: Seq<Heading>, i: int) -> bool {
    list[i].depth <= list[i - 1].depth + 1
}

/// No level is skipped on the way down.
pub open spec fn no_skipped_level(list: Seq<Heading>) -> bool {
    forall|i: int| 0 < i < list.len() ==> #[trigger] one_level_down(list, i)
}

/// An outline is taken where every entry is sound, no number comes twice and
/// no level is skipped.
pub proof fn sound_outlines_are_taken(list: Seq<Heading>)
    ensures
        heading_fault(list) is None <==> {
            &&& distinct_ids(list)
            &&& no_skipped_level(list)
            &&& forall|i: int| 0 <= i < list.len() ==> sound_entry(#[trigger] list[i])
        },
    decreases list.len(),
{
    if list.len() > 0 {
        let front = list.drop_last();
        let last = list.last();
        sound_outlines_are_taken(front);
        assert forall|i: int| 0 <= i < front.len() implies #[trigger] list[i] == front[i] by {}
        if heading_fault(list) is None {
            assert forall|i: int, j: int| 0 <= i < j < list.len() implies (#[trigger] list[i]).id
                != (#[trigger] list[j]).id by {
                assert(list[i] == front[i]);
                if j < front.len() {
                    assert(list[j] == front[j]);
                } else if list[i].id == list[j].id {
                    assert(has_id(front, last.id));
                }
            }
            assert forall|i: int| 0 <= i < list.len() implies sound_entry(#[trigger] list[i]) by {
                if i < front.len() {
                    assert(sound_entry(front[i]));
                }
            }
            assert forall|i: int| 0 < i < list.len() implies #[trigger] one_level_down(list, i) by {
                if i < front.len() {
                    assert(one_level_down(front, i));
                }
            }
        } else if distinct_ids(list) && no_skipped_level(list) && (forall|i: int|
            0 <= i < list.len() ==> sound_entry(#[trigger] list[i])) {
            assert forall|i: int, j: int| 0 <= i < j < front.len() implies (#[trigger] front[i]).id
                != (#[trigger] front[j]).id by {
                assert(list[i].id != list[j].id);
            }
            assert forall|i: int| 0 <= i < front.len() implies sound_entry(#[trigger] front[i]) by {
                assert(sound_entry(list[i]));
            }
            assert forall|i: int| 0 < i < front.len() implies #[trigger] one_level_down(front, i) by {
                assert(one_level_down(list, i));
            }
            if list.len() > 1 {
                assert(one_level_down(list, list.len() - 1));
            }
            assert(sound_entry(list[list.len() - 1]));
            if has_id(front, last.id) {
                let i = choose|i: int| 0 <= i < front.len() && #[trigger] front[i].id == last.id;
                assert(list[i].id != list[list.len() - 1].id);
            }
        }
    }
}

/// A snapshot is taken where its entries are, where there are not too many of
/// them, and where its title is not too long; its number is above zero.
pub proof fn sound_snapshots_are_taken(generation: u64, title: Seq<char>, list: Seq<Heading>)
    ensures
        snapshot_fault(generation, title, list) is None <==> {
            &&& generation > 0
            &&& list.len() <= MAX_OUTLINE_ENTRIES
            &&& utf8_len(title) <= MAX_OUTLINE_TEXT_BYTES
            &&& distinct_ids(list)
            &&& no_skipped_level(list)
            &&& forall|i: int| 0 <= i < list.len() ==> sound_entry(#[trigger] list[i])
        },
{
    sound_outlines_are_taken(list);
}

/// Some entry between two is less deep than the second, so one is above it.
proof fn lemma_nearest_above(list: Seq<Heading>, k: int, i: int) -> (a: int)
    requires
        0 <= k < i < list.len(),
        list[k].depth < list[i].depth,
    ensures
        k <= a < i,
        ancestor(list, a, i),
    decreases i - k,
{
    if forall|j: int| k < j <= i ==> list[k].depth < (#[trigger] list[j]).depth {
        k
    } else {
        let j = choose|j: int| k < j <= i && !(list[k].depth < (#[trigger] list[j]).depth);
        lemma_nearest_above(list, j, i)
    }
}

/// The entry that another belongs to is the nearest in front of it that is
/// less deep. An entry without one has none in front of it that is less deep.
pub proof fn entries_belong_to_the_nearest_less_deep_one(list: Seq<Heading>, i: int)
    requires
        0 <= i < list.len(),
    ensures
        ({
            let all = ancestors(list, i);
            if all.len() > 0 {
                let parent = all.last();
                &&& 0 <= parent < i
                &&& list[parent].depth < list[i].depth
                &&& forall|k: int|
                    parent < k < i ==> (#[trigger] list[k]).depth >= list[i].depth
            } else {
                forall|k: int| 0 <= k < i ==> (#[trigger] list[k]).depth >= list[i].depth
            }
        }),
{
    let keep = above(list, i);
    let all = ancestors(list, i);
    lemma_kept(0, i, keep);
    if all.len() > 0 {
        assert(keep(all[all.len() - 1]));
    }
    assert forall|k: int|
        0 <= k < i && (all.len() == 0 || all.last() < k) implies (#[trigger] list[k]).depth
        >= list[i].depth by {
        if list[k].depth < list[i].depth {
            let a = lemma_nearest_above(list, k, i);
            assert(keep(a));
            assert(all.contains(a));
            let n = choose|n: int| 0 <= n < all.len() && all[n] == a;
            assert(all[n] <= all[all.len() - 1]);
        }
    }
}

/// Collapsing an entry hides what lies beneath it, and nothing else.
pub proof fn collapsing_hides_what_lies_beneath(
    list: Seq<Heading>,
    collapsed: Set<u64>,
    a: int,
    i: int,
)
    requires
        distinct_ids(list),
        0 <= a < list.len(),
        0 <= i < list.len(),
    ensures
        visible(list, collapsed.insert(list[a].id), None).contains(i) <==> visible(
            list,
            collapsed,
            None,
        ).contains(i) && !ancestor(list, a, i),
        visible(list, Set::empty(), None).contains(i),
{
    let more = collapsed.insert(list[a].id);
    let count = list.len() as int;
    let (open, closed) = (shown(list, collapsed, None), shown(list, more, None));
    let all = shown(list, Set::empty(), None);
    lemma_visible(list, collapsed, None, i);
    lemma_visible(list, more, None, i);
    lemma_visible(list, Set::empty(), None, i);
    assert(closed(i) ==> open(i)) by {
        if closed(i) {
            assert forall|b: int| #[trigger] ancestor(list, b, i) implies !collapsed.contains(
                list[b].id,
            ) by {
                assert(!more.contains(list[b].id));
            }
        }
    }
    if open(i) && !ancestor(list, a, i) {
        assert forall|b: int| #[trigger] ancestor(list, b, i) implies !more.contains(list[b].id) by {
            if a < b {
                assert(list[a].id != list[b].id);
            } else if b < a {
                assert(list[b].id != list[a].id);
            }
        }
    }
    if closed(i) && ancestor(list, a, i) {
        assert(more.contains(list[a].id));
    }
}

proof fn lemma_visible(list: Seq<Heading>, collapsed: Set<u64>, found: Option<Seq<bool>>, i: int)
    requires
        0 <= i < list.len(),
    ensures
        visible(list, collapsed, found).contains(i) <==> shown(list, collapsed, found)(i),
{
    let keep = shown(list, collapsed, found);
    let all = visible(list, collapsed, found);
    lemma_kept(0, list.len() as int, keep);
    if all.contains(i) {
        let k = choose|k: int| 0 <= k < all.len() && all[k] == i;
        assert(keep(all[k]));
    }
}

/// A filter shows the entries that hold it, and those they lie beneath; what
/// is collapsed does not matter.
pub proof fn filters_show_what_is_found_and_what_is_above(
    list: Seq<Heading>,
    collapsed: Set<u64>,
    found: Seq<bool>,
    i: int,
)
    requires
        found.len() == list.len(),
        0 <= i < list.len(),
    ensures
        visible(list, collapsed, Some(found)).contains(i) <==> found[i] || exists|j: int|
            i < j < list.len() && #[trigger] found[j] && ancestor(list, i, j),
        visible(list, collapsed, Some(found)) == visible(list, Set::empty(), Some(found)),
{
    lemma_visible(list, collapsed, Some(found), i);
    let keep = shown(list, collapsed, Some(found));
    if keep(i) && !found[i] {
        let j = choose|j: int| j < list.len() && found[j] && #[trigger] ancestor(list, i, j);
        assert(found[j]);
    }
    if exists|j: int| i < j < list.len() && #[trigger] found[j] && ancestor(list, i, j) {
        let j = choose|j: int| i < j < list.len() && #[trigger] found[j] && ancestor(list, i, j);
        assert(ancestor(list, i, j));
    }
    let other = shown(list, Set::empty(), Some(found));
    assert forall|n: int| 0 <= n < list.len() implies #[trigger] keep(n) == other(n) by {}
    crate::geometry::lemma_kept_same(0, list.len() as int, keep, other);
}

proof fn lemma_place_of(list: Seq<Heading>, indices: Seq<int>, k: int)
    requires
        0 <= k < indices.len(),
        forall|i: int, j: int|
            0 <= i < j < indices.len() ==> list[#[trigger] indices[i]].id != list[#[trigger] indices[j]].id,
    ensures
        place_of(list, indices, Some(list[indices[k]].id)) == k,
    decreases k,
{
    let id = list[indices[k]].id;
    assert(lists_id(list, indices, id));
    if k > 0 {
        assert(list[indices[0]].id != list[indices[k]].id);
        let rest = indices.drop_first();
        assert(rest[k - 1] == indices[k]);
        assert forall|i: int, j: int| 0 <= i < j < rest.len() implies list[#[trigger] rest[i]].id
            != list[#[trigger] rest[j]].id by {
            assert(list[indices[i + 1]].id != list[indices[j + 1]].id);
        }
        lemma_place_of(list, rest, k - 1);
    }
}

/// Moving the selection goes along the entries that are shown, as far as it
/// says, and stops at either end.
pub proof fn the_selection_moves_along_what_is_shown(panel: Outline, k: int, delta: int)
    requires
        distinct_ids(panel.entries),
        0 <= k < panel.visible().len(),
        panel.selected == Some(panel.entries[panel.visible()[k]].id),
    ensures
        ({
            let list = panel.visible();
            let next = panel.moved(delta);
            let to = if k + delta < 0 {
                0
            } else if k + delta >= list.len() {
                list.len() - 1
            } else {
                k + delta
            };
            &&& next.selected == Some(panel.entries[list[to]].id)
            &&& next.entries == panel.entries && next.collapsed == panel.collapsed && next.filter
                == panel.filter
        }),
{
    let list = panel.visible();
    lemma_visible_is_distinct(panel);
    lemma_place_of(panel.entries, list, k);
}

proof fn lemma_visible_is_distinct(panel: Outline)
    requires
        distinct_ids(panel.entries),
    ensures
        ({
            let list = panel.visible();
            forall|i: int, j: int|
                0 <= i < j < list.len() ==> panel.entries[#[trigger] list[i]].id
                    != panel.entries[#[trigger] list[j]].id
        }),
{
    let list = panel.visible();
    lemma_kept(
        0,
        panel.entries.len() as int,
        shown(panel.entries, panel.collapsed, panel.found()),
    );
    assert forall|i: int, j: int| 0 <= i < j < list.len() implies panel.entries[#[trigger] list[i]].id
        != panel.entries[#[trigger] list[j]].id by {
        assert(list[i] < list[j]);
    }
}

/// Toggling an entry collapses it where it was open and opens it where it was
/// collapsed; the others stay as they are. An entry with nothing beneath it
/// stays too.
pub proof fn toggling_turns_one_entry(panel: Outline, i: int, id: u64)
    requires
        panel.selected_index() == Some(i),
        panel.selected is Some,
    ensures
        ({
            let next = panel.toggled();
            let deeper = i + 1 < panel.entries.len() && panel.entries[i + 1].depth
                > panel.entries[i].depth;
            &&& next.entries == panel.entries && next.filter == panel.filter
            &&& deeper && id == panel.selected->0 ==> (next.collapsed.contains(id)
                <==> !panel.collapsed.contains(id))
            &&& id != panel.selected->0 ==> (next.collapsed.contains(id)
                <==> panel.collapsed.contains(id))
            &&& !deeper ==> next == panel
        }),
{
}

/// A newer outline of the same source keeps what was collapsed, selected and
/// looked for, as far as it is still there; one of another source starts
/// afresh.
pub proof fn refreshing_keeps_what_is_still_there(
    panel: Outline,
    generation: u64,
    source_id: u64,
    title: Seq<char>,
    entries: Seq<Heading>,
    id: u64,
)
    requires
        generation > panel.generation,
    ensures
        ({
            let next = refreshed(panel, generation, source_id, title, entries);
            let same = source_id == panel.source_id;
            &&& next.generation == generation && next.source_id == source_id && next.title == title
                && next.entries == entries
            &&& next.follow_cursor == panel.follow_cursor
            &&& same ==> next.filter == panel.filter
            &&& !same ==> next.filter.len() == 0
            &&& next.collapsed.contains(id) <==> same && panel.collapsed.contains(id) && exists|
                i: int,
            |
                0 <= i < entries.len() && #[trigger] entries[i].id == id
        }),
{
}

proof fn lemma_ancestors_are_listed(list: Seq<Heading>, i: int, a: int)
    requires
        0 <= i < list.len(),
        ancestor(list, a, i),
    ensures
        lists_id(list, ancestors(list, i), list[a].id),
{
    let keep = above(list, i);
    lemma_kept(0, i, keep);
    let all = ancestors(list, i);
    assert(keep(a));
    assert(all.contains(a));
    let k = choose|k: int| 0 <= k < all.len() && all[k] == a;
    assert(list[all[k]].id == list[a].id);
}

/// Following the cursor selects the innermost entry around it and opens what
/// it lies beneath, so that it is shown.
pub proof fn following_shows_the_entry_at_the_cursor(panel: Outline, cursor: Point, i: int)
    requires
        panel.follow_cursor,
        innermost(panel.entries, cursor) == Some(i),
        0 <= i < panel.entries.len(),
        panel.found() is None,
    ensures
        ({
            let next = panel.followed(cursor);
            &&& next.selected == Some(panel.entries[i].id)
            &&& next.visible().contains(i)
            &&& next.entries == panel.entries
            &&& forall|id: u64| #[trigger]
                next.collapsed.contains(id) ==> panel.collapsed.contains(id)
        }),
        !panel.follow_cursor ==> panel.followed(cursor) == panel,
{
    let next = panel.followed(cursor);
    lemma_visible(next.entries, next.collapsed, None, i);
    assert forall|a: int| #[trigger] ancestor(panel.entries, a, i) implies !next.collapsed.contains(
        panel.entries[a].id,
    ) by {
        lemma_ancestors_are_listed(panel.entries, i, a);
    }
}

/// The rows are the entries that are shown, in order, from the first row of
/// the window on; a row tells whether it is selected, collapsed, and has
/// anything beneath it.
pub proof fn rows_are_the_entries_that_are_shown(panel: Outline, max_rows: int, k: int)
    requires
        0 <= k < panel.rows(max_rows).len(),
    ensures
        ({
            let row = panel.rows(max_rows)[k];
            let i = panel.visible()[panel.first_row(max_rows) + k];
            let entry = panel.entries[i];
            &&& row.entry == entry
            &&& row.selected <==> panel.selected == Some(entry.id)
            &&& row.collapsed <==> panel.collapsed.contains(entry.id)
            &&& row.has_children <==> i + 1 < panel.entries.len() && panel.entries[i + 1].depth
                > entry.depth
        }),
{
}

/// A row is indented by two columns for each level, has a mark where something
/// lies beneath it, which tells whether that is shown, and is reversed where
/// it is selected.
pub proof fn rows_are_indented_by_their_depth(row: RowView)
    ensures
        ({
            let (lines, style) = drawn_row(row);
            let spans = lines[0];
            &&& lines.len() == 1 && spans.len() == 3
            &&& spans[0].len() == 2 * row.entry.depth
            &&& forall|i: int| 0 <= i < spans[0].len() ==> #[trigger] spans[0][i] == ' '
            &&& spans[2] == row.entry.text
            &&& row.selected ==> style == with_modifiers(no_parts(), REVERSED)
            &&& !row.selected ==> style == no_parts()
            &&& !row.has_children ==> spans[1] == "  "@
            &&& row.has_children && row.collapsed ==> spans[1] == "\u{25b8} "@
            &&& row.has_children && !row.collapsed ==> spans[1] == "\u{25be} "@
        }),
{
}

/// In a list of symbols the commands go from one to the next and stop at the
/// ends; another document starts at its first symbol.
pub proof fn symbols_are_gone_through_in_order(marked: Marked, buffer: u64, command: Command, count: int)
    requires
        0 <= marked.selected < count,
    ensures
        ({
            let next = marked.after(command, count);
            &&& next.buffer == marked.buffer && next.first_row == marked.first_row
            &&& 0 <= next.selected < count
            &&& (command is PanelSelectNext || command is PanelExpand) && marked.selected < count
                - 1 ==> next.selected == marked.selected + 1
            &&& (command is PanelSelectPrevious || command is PanelCollapse) && marked.selected
                > 0 ==> next.selected == marked.selected - 1
            &&& (command is PanelSelectNext || command is PanelExpand) && marked.selected == count
                - 1 ==> next == marked
            &&& (command is PanelSelectPrevious || command is PanelCollapse) && marked.selected
                == 0 ==> next == marked
        }),
        marked.buffer != Some(buffer) ==> marked.within(Some(buffer)).selected == 0
            && marked.within(Some(buffer)).buffer == Some(buffer),
        marked.buffer == Some(buffer) ==> marked.within(Some(buffer)) == marked,
        marked.within(None) == marked,
        marked.marked(count) == Some(marked.selected),
{
}

/// A symbol is indented by two columns for each level.
pub proof fn symbols_are_indented_by_their_depth(symbol: Symbol)
    ensures
        symbol_row(symbol).text.len() == 2 * symbol.depth + symbol.text@.len(),
        forall|i: int|
            0 <= i < 2 * symbol.depth ==> #[trigger] symbol_row(symbol).text[i] == ' ',
        symbol_row(symbol).text.skip(2 * symbol.depth) == symbol.text@,
        symbol_row(symbol).enabled,
{
    assert(symbol_row(symbol).text.skip(2 * symbol.depth) =~= symbol.text@);
}

/// Going up leads from the selected entry to the nearest one in front of it
/// that is less deep, where there is one.
pub proof fn going_up_leads_to_the_nearest_less_deep_entry(panel: Outline, i: int)
    requires
        panel.selected_index() == Some(i),
        0 <= i < panel.entries.len(),
    ensures
        match panel.parent() {
            Some(parent) => {
                &&& 0 <= parent < i
                &&& panel.entries[parent].depth < panel.entries[i].depth
                &&& forall|k: int|
                    parent < k < i ==> (#[trigger] panel.entries[k]).depth
                        >= panel.entries[i].depth
            },
            None => forall|k: int|
                0 <= k < i ==> (#[trigger] panel.entries[k]).depth >= panel.entries[i].depth,
        },
{
    entries_belong_to_the_nearest_less_deep_one(panel.entries, i);
}

} // verus!
