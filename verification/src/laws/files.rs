//! Laws of the files of a project and of changing them.

use vstd::prelude::*;

use crate::geometry::lemma_kept;
use crate::input::lowercase;
use crate::paths::{absolute, name_of, part_precedes, parts, Part};
use crate::project_panel::{
    allowed, at_path, collides, first_orphan, found_in, has_children, has_directory, has_id,
    has_path, hit, index_of, items_fault, leads_to_hit, levels, levels_precede, lists_id,
    local_target_fault, metadata_part, mutation_path_fault, nearest, notes, on_path, orphan_fault,
    path_fault, path_index, planned, position_of, row_text, shape_fault, shown, shown_name,
    snapshot_fault, source_fault, target_fault, visible, Files, Item, Level, MutationKind, PanelRow,
    Shown, MAX_PANEL_ENTRIES,
};
use crate::text::{ends, holds};
use crate::project_panel::remote_fault;
use crate::project_panel::{extended, local_fault, resolve_fault, FileKind, PanelFault, SourceFacts, TargetFacts};
use crate::text::texts;

verus! {

/// Paths beneath one directory are ordered by what stands behind it.
proof fn lemma_levels_behind(front: Seq<Level>, a: Seq<Level>, b: Seq<Level>)
    ensures
        levels_precede(front + a, front + b) == levels_precede(a, b),
    decreases front.len(),
{
    if front.len() > 0 {
        let rest = front.drop_first();
        assert((front + a).drop_first() =~= rest + a);
        assert((front + b).drop_first() =~= rest + b);
        lemma_levels_behind(rest, a, b);
    } else {
        assert(front + a =~= a);
        assert(front + b =~= b);
    }
}

/// In a directory all directories, and what lies in them, come before the
/// files; those of one kind are ordered by their names.
pub proof fn directories_come_before_files(
    front: Seq<Part>,
    a: Part,
    b: Part,
    beneath: Seq<Part>,
    file: bool,
)
    ensures
        levels_precede(levels(front.push(a), true), levels(front.push(b), false)),
        beneath.len() > 0 ==> levels_precede(
            levels(front.push(a) + beneath, !file),
            levels(front.push(b), false),
        ),
        part_precedes(a, b) ==> levels_precede(
            levels(front.push(a), file),
            levels(front.push(b), file),
        ),
        levels_precede(levels(front, true), levels(front.push(a), file)),
{
    let lead = levels(front, true);
    let none = Seq::<Level>::empty();
    let dir = |p: Part| seq![Level { rank: 0, part: p }];
    let last = |p: Part| seq![Level { rank: 1, part: p }];
    crate::paths::lemma_part_strict(a, b);
    assert(levels(front.push(a), true) =~= lead + dir(a));
    assert(levels(front.push(b), true) =~= lead + dir(b));
    assert(levels(front.push(a), false) =~= lead + last(a));
    assert(levels(front.push(b), false) =~= lead + last(b));
    lemma_levels_behind(lead, dir(a), last(b));
    lemma_levels_behind(lead, dir(a), dir(b));
    lemma_levels_behind(lead, last(a), last(b));
    lemma_levels_behind(lead, none, dir(a));
    lemma_levels_behind(lead, none, last(a));
    assert(lead + none =~= lead);
    if beneath.len() > 0 {
        let all = levels(front.push(a) + beneath, !file);
        let tail = all.skip(front.len() as int);
        assert(all =~= lead + tail);
        lemma_levels_behind(lead, tail, last(b));
        assert(tail[0] == dir(a)[0]);
    }
}

proof fn lemma_visible(
    list: Seq<Item>,
    expanded: Set<u64>,
    show: Shown,
    found: Option<Seq<bool>>,
    i: int,
)
    requires
        0 <= i < list.len(),
    ensures
        visible(list, expanded, show, found).contains(i) <==> shown(list, expanded, show, found)(i),
{
    let keep = shown(list, expanded, show, found);
    let all = visible(list, expanded, show, found);
    lemma_kept(0, list.len() as int, keep);
    if all.contains(i) {
        let k = choose|k: int| 0 <= k < all.len() && all[k] == i;
        assert(keep(all[k]));
    }
}

/// Closing a directory hides what lies beneath it, and nothing else.
pub proof fn closing_a_directory_hides_what_lies_beneath(
    list: Seq<Item>,
    expanded: Set<u64>,
    show: Shown,
    a: int,
    i: int,
)
    requires
        forall|m: int, n: int|
            0 <= m < n < list.len() ==> (#[trigger] list[m]).id != (#[trigger] list[n]).id,
        0 <= a < list.len(),
        0 <= i < list.len(),
    ensures
        visible(list, expanded.remove(list[a].id), show, None).contains(i) <==> visible(
            list,
            expanded,
            show,
            None,
        ).contains(i) && !on_path(list, a, i),
{
    let less = expanded.remove(list[a].id);
    let (open, closed) = (shown(list, expanded, show, None), shown(list, less, show, None));
    lemma_visible(list, expanded, show, None, i);
    lemma_visible(list, less, show, None, i);
    if closed(i) {
        assert forall|b: int| #[trigger] on_path(list, b, i) implies expanded.contains(
            list[b].id,
        ) by {
            assert(less.contains(list[b].id));
        }
        if on_path(list, a, i) {
            assert(less.contains(list[a].id));
        }
    }
    if open(i) && !on_path(list, a, i) {
        assert forall|b: int| #[trigger] on_path(list, b, i) implies less.contains(list[b].id) by {
            assert(expanded.contains(list[b].id));
            if a < b {
                assert(list[a].id != list[b].id);
            } else if b < a {
                assert(list[b].id != list[a].id);
            }
        }
    }
}

/// What is ignored or hidden is shown where that was asked for, and so is what
/// lies beneath it; the root is shown always.
pub proof fn ignored_and_hidden_files_are_left_out(
    list: Seq<Item>,
    expanded: Set<u64>,
    show: Shown,
    found: Option<Seq<bool>>,
    a: int,
    i: int,
)
    requires
        0 < a < list.len(),
        0 <= i < list.len(),
        a == i || on_path(list, a, i),
        list[a].ignored && !show.ignored || list[a].hidden && !show.hidden,
    ensures
        !visible(list, expanded, show, found).contains(i),
{
    lemma_visible(list, expanded, show, found, i);
    assert(!allowed(list[a], show));
}

/// A filter shows what holds it and what leads there, opened or not.
pub proof fn filters_show_what_is_found_and_what_leads_there(
    list: Seq<Item>,
    expanded: Set<u64>,
    found: Seq<bool>,
    i: int,
)
    requires
        found.len() == list.len(),
        0 <= i < list.len(),
    ensures
        visible(list, expanded, (Shown { ignored: true, hidden: true }), Some(found)).contains(i)
            <==> found[i] || exists|j: int|
            0 <= j < list.len() && #[trigger] found[j] && on_path(list, i, j),
{
    let show = Shown { ignored: true, hidden: true };
    lemma_visible(list, expanded, show, Some(found), i);
    if leads_to_hit(list, show, found, i) {
        let j = choose|j: int| hit(list, show, found, j) && #[trigger] on_path(list, i, j);
        assert(found[j]);
    }
    if exists|j: int| 0 <= j < list.len() && #[trigger] found[j] && on_path(list, i, j) {
        let j = choose|j: int| 0 <= j < list.len() && #[trigger] found[j] && on_path(list, i, j);
        assert(hit(list, show, found, j) && on_path(list, i, j));
    }
}

/// A filter is looked for in the paths, in lower case.
pub proof fn filters_are_looked_for_in_paths(list: Seq<Item>, lowered: Seq<char>, i: int)
    requires
        0 <= i < list.len(),
    ensures
        lowered.len() == 0 ==> found_in(list, lowered) is None,
        lowered.len() > 0 ==> (found_in(list, lowered) matches Some(found) && found.len()
            == list.len() && (found[i] <==> holds(lowercase(list[i].path), lowered))),
{
}

proof fn lemma_position_of(list: Seq<Item>, indices: Seq<int>, k: int)
    requires
        0 <= k < indices.len(),
        forall|i: int, j: int|
            0 <= i < j < indices.len() ==> list[#[trigger] indices[i]].id != list[#[trigger] indices[j]].id,
    ensures
        position_of(list, indices, list[indices[k]].id) == k,
    decreases k,
{
    let id = list[indices[k]].id;
    assert(lists_id(list, indices, id));
    if k > 0 {
        assert(list[indices[0]].id != list[indices[k]].id);
        let rest = indices.drop_first();
        assert(rest[k - 1] == indices[k]);
        assert forall|i: int, j: int| 0 <= i < j < rest.len() implies list[#[trigger] rest[i]].id
            != list[#[trigger] rest[j]].id by {
            assert(list[indices[i + 1]].id != list[indices[j + 1]].id);
        }
        lemma_position_of(list, rest, k - 1);
    }
}

/// Moving the selection goes along the files that are shown, as far as it
/// says, and stops at either end.
pub proof fn the_selection_moves_along_the_files(files: Files, k: int, delta: int)
    requires
        forall|m: int, n: int|
            0 <= m < n < files.items.len() ==> (#[trigger] files.items[m]).id
                != (#[trigger] files.items[n]).id,
        0 <= k < files.visible().len(),
        files.selected == files.items[files.visible()[k]].id,
    ensures
        ({
            let list = files.visible();
            let next = files.moved(delta);
            let to = if k + delta < 0 {
                0
            } else if k + delta >= list.len() {
                list.len() - 1
            } else {
                k + delta
            };
            &&& next.selected == files.items[list[to]].id
            &&& next.expanded == files.expanded && next.filter == files.filter && next.items
                == files.items
        }),
{
    let list = files.visible();
    let show = Shown { ignored: files.show_ignored, hidden: files.show_hidden };
    lemma_kept(
        0,
        files.items.len() as int,
        shown(files.items, files.expanded, show, files.found()),
    );
    assert forall|i: int, j: int| 0 <= i < j < list.len() implies files.items[#[trigger] list[i]].id
        != files.items[#[trigger] list[j]].id by {
        assert(list[i] < list[j]);
    }
    lemma_position_of(files.items, list, k);
    assert(lists_id(files.items, list, files.selected));
}

/// Toggling a directory opens it where it was closed and closes it where it
/// was open; the others stay as they are, and so does the root.
pub proof fn toggling_turns_one_directory(files: Files, id: u64, other: u64)
    ensures
        id != files.items[0].id ==> (files.toggled(id).expanded.contains(id)
            <==> !files.expanded.contains(id)),
        other != id ==> (files.toggled(id).expanded.contains(other)
            <==> files.expanded.contains(other)),
        files.toggled(files.items[0].id) == files,
        files.toggled(id).items == files.items && files.toggled(id).filter == files.filter,
{
}

proof fn lemma_path_index(list: Seq<Item>, path: Seq<Part>)
    ensures
        path_index(list, path) matches Some(i) ==> 0 <= i < list.len() && parts(list[i].path)
            == path,
        path_index(list, path) is None ==> forall|i: int|
            0 <= i < list.len() ==> parts((#[trigger] list[i]).path) != path,
    decreases list.len(),
{
    if list.len() > 0 {
        let front = list.drop_last();
        lemma_path_index(front, path);
        assert forall|i: int| 0 <= i < front.len() implies #[trigger] list[i] == front[i] by {}
    }
}

/// The selection of a file that is gone goes to the nearest directory above it
/// that is still there.
pub proof fn the_nearest_directory_above_is_found(list: Seq<Item>, path: Seq<Part>) -> (i: int)
    requires
        list.len() > 0,
        parts(list[0].path).len() == 0,
    ensures
        0 <= i < list.len(),
        nearest(list, path) == list[i].id,
        parts(list[i].path).len() <= path.len(),
        parts(list[i].path) == path.take(parts(list[i].path).len() as int),
        forall|j: int, n: int|
            0 <= j < list.len() && parts(list[i].path).len() < n <= path.len()
                ==> #[trigger] parts((#[trigger] list[j]).path) != #[trigger] path.take(n),
    decreases path.len(),
{
    lemma_path_index(list, path);
    match path_index(list, path) {
        Some(i) => {
            assert(path.take(path.len() as int) =~= path);
            i
        },
        None => {
            if path.len() == 0 {
                assert(parts(list[0].path) =~= path);
                0
            } else {
                let front = path.drop_last();
                let i = the_nearest_directory_above_is_found(list, front);
                let own = parts(list[i].path);
                assert(front.take(own.len() as int) =~= path.take(own.len() as int));
                assert forall|j: int, n: int|
                    0 <= j < list.len() && own.len() < n <= path.len() implies #[trigger] parts(
                    (#[trigger] list[j]).path,
                ) != #[trigger] path.take(n) by {
                    if n < path.len() {
                        assert(front.take(n) =~= path.take(n));
                    } else {
                        assert(path.take(n) =~= path);
                    }
                }
                i
            }
        },
    }
}

/// A newer list of files keeps the directories that are open, as far as they
/// are still there, and what was looked for.
pub proof fn refreshing_keeps_open_directories(files: Files, generation: u64, items: Seq<Item>, i: int)
    requires
        forall|m: int, n: int|
            0 <= m < n < items.len() ==> (#[trigger] items[m]).id != (#[trigger] items[n]).id,
        0 < i < items.len(),
    ensures
        ({
            let next = files.refreshed(generation, items);
            &&& next.generation == generation && next.items == items
            &&& next.filter == files.filter && next.show_ignored == files.show_ignored
                && next.show_hidden == files.show_hidden
            &&& next.expanded.contains(items[0].id)
            &&& next.expanded.contains(items[i].id) <==> files.expanded.contains(items[i].id)
                && items[i].directory
        }),
{
    crate::project_panel::lemma_index_of(items, items[i].id);
    assert(has_id(items, items[i].id));
    let k = index_of(items, items[i].id)->0;
    if k < i {
        assert(items[k].id != items[i].id);
    } else if i < k {
        assert(items[i].id != items[k].id);
    }
    assert(items[0].id != items[i].id);
}

/// The rows are the files that are shown, in order, from the first row of the
/// window on, as deep as their paths are long.
pub proof fn rows_are_the_files_that_are_shown(files: Files, max_rows: int, k: int)
    requires
        0 <= k < files.rows(max_rows).len(),
    ensures
        ({
            let row = files.rows(max_rows)[k];
            let i = files.visible()[files.first_row(max_rows) + k];
            let item = files.items[i];
            &&& row.id.0 == item.id
            &&& row.selected <==> item.id == files.selected
            &&& row.expanded <==> files.expanded.contains(item.id)
            &&& parts(item.path).len() <= usize::MAX ==> row.depth == parts(item.path).len()
        }),
{
}

/// A row is indented by two columns for each level, marks directories, names
/// the file, and tells what is special of it.
pub proof fn rows_name_their_files(item: Item, row: PanelRow)
    ensures
        ({
            let text = row_text(item, row);
            let at = 2 * row.depth;
            &&& forall|i: int| 0 <= i < at ==> #[trigger] text[i] == ' '
            &&& !item.directory ==> text[at] == ' '
            &&& item.directory && row.expanded ==> text[at] == '\u{25be}'
            &&& item.directory && !row.expanded && row.has_children ==> text[at] == '\u{25b8}'
            &&& item.directory && !row.expanded && !row.has_children ==> text[at] == '\u{b7}'
            &&& text.skip(at + 2) == shown_name(item) + notes(item)
            &&& name_of(parts(item.path)) matches Some(name) ==> shown_name(item) == name
            &&& !item.private && !item.ignored && !item.hidden && !item.external && !item.fifo
                ==> notes(item).len() == 0
            &&& item.fifo ==> ends(notes(item), " [special]"@)
        }),
{
    reveal_strlit(" ");
    reveal_strlit("\u{25be}");
    reveal_strlit("\u{25b8}");
    reveal_strlit("\u{b7}");
    let text = row_text(item, row);
    assert(text.skip(2 * row.depth + 2) =~= shown_name(item) + notes(item));
    if item.fifo {
        let all = notes(item);
        assert(all.skip(all.len() - " [special]"@.len()) =~= " [special]"@);
    }
}

/// Each remark on a file stands there exactly where it applies.
pub proof fn remarks_apply_to_their_files(item: Item)
    ensures
        item.private && !item.ignored && !item.hidden && !item.external && !item.fifo ==> notes(item)
            == " [private]"@,
        !item.private && item.ignored && !item.hidden && !item.external && !item.fifo ==> notes(item)
            == " [ignored]"@,
        !item.private && !item.ignored && item.hidden && !item.external && !item.fifo ==> notes(item)
            == " [hidden]"@,
        !item.private && !item.ignored && !item.hidden && item.external && !item.fifo ==> notes(item)
            == " [external]"@,
        notes(item).len() == notes(Item { private: false, ..item }).len() + (if item.private {
            " [private]"@.len() as int
        } else {
            0
        }),
        notes(item).len() == notes(Item { ignored: false, ..item }).len() + (if item.ignored {
            " [ignored]"@.len() as int
        } else {
            0
        }),
{
    let none = Seq::<char>::empty();
    assert(none + " [private]"@ + none =~= " [private]"@);
    assert(notes(item) =~= notes(item));
    if item.private && !item.ignored && !item.hidden && !item.external && !item.fifo {
        assert(notes(item) =~= " [private]"@);
    }
    if !item.private && item.ignored && !item.hidden && !item.external && !item.fifo {
        assert(notes(item) =~= " [ignored]"@);
    }
    if !item.private && !item.ignored && item.hidden && !item.external && !item.fifo {
        assert(notes(item) =~= " [hidden]"@);
    }
    if !item.private && !item.ignored && !item.hidden && item.external && !item.fifo {
        assert(notes(item) =~= " [external]"@);
    }
}

/// What stands in a list of files: each at a path that can be one, no number
/// and no path twice, and a directory where the root is.
pub open spec fn sound_items(list: Seq<Item>) -> bool {
    &&& forall|i: int|
        0 <= i < list.len() ==> path_fault((#[trigger] list[i]).path, true) is None && (
        list[i].path.len() == 0 ==> list[i].directory)
    &&& forall|i: int, j: int|
        0 <= i < j < list.len() ==> (#[trigger] list[i]).id != (#[trigger] list[j]).id && parts(
            list[i].path,
        ) != parts(list[j].path)
}

proof fn lemma_sound_items(list: Seq<Item>)
    ensures
        items_fault(list) is None <==> sound_items(list),
    decreases list.len(),
{
    if list.len() > 0 {
        let front = list.drop_last();
        let last = list.last();
        lemma_sound_items(front);
        assert forall|i: int| 0 <= i < front.len() implies #[trigger] list[i] == front[i] by {}
        if items_fault(list) is None {
            assert forall|i: int, j: int| 0 <= i < j < list.len() implies (#[trigger] list[i]).id
                != (#[trigger] list[j]).id && parts(list[i].path) != parts(list[j].path) by {
                assert(front[i] == list[i]);
                if j < front.len() {
                    assert(front[j] == list[j]);
                } else {
                    if front[i].id == last.id {
                        assert(has_id(front, last.id));
                    }
                    if parts(front[i].path) == parts(last.path) {
                        assert(at_path(front[i], parts(last.path)));
                        assert(has_path(front, parts(last.path)));
                    }
                }
            }
            assert forall|i: int| 0 <= i < list.len() implies path_fault(
                (#[trigger] list[i]).path,
                true,
            ) is None && (list[i].path.len() == 0 ==> list[i].directory) by {
                if i < front.len() {
                    assert(front[i] == list[i]);
                }
            }
        }
        if sound_items(list) {
            assert forall|i: int, j: int| 0 <= i < j < front.len() implies (#[trigger] front[i]).id
                != (#[trigger] front[j]).id && parts(front[i].path) != parts(front[j].path) by {
                assert(list[i].id != list[j].id);
            }
            assert forall|i: int| 0 <= i < front.len() implies path_fault(
                (#[trigger] front[i]).path,
                true,
            ) is None && (front[i].path.len() == 0 ==> front[i].directory) by {
                assert(list[i] == front[i]);
            }
            assert(list[list.len() - 1] == last);
            assert(path_fault(last.path, true) is None);
            if has_id(front, last.id) {
                let i = choose|i: int| 0 <= i < front.len() && #[trigger] front[i].id == last.id;
                assert(list[i].id != list[list.len() - 1].id);
            }
            if has_path(front, parts(last.path)) {
                let i = choose|i: int|
                    0 <= i < front.len() && at_path(#[trigger] front[i], parts(last.path));
                assert(list[i].id != list[list.len() - 1].id);
            }
        }
    }
}

proof fn lemma_no_orphan(list: Seq<Item>, count: int)
    requires
        0 <= count <= list.len(),
    ensures
        first_orphan(list, count) is None <==> forall|i: int|
            0 <= i < count ==> #[trigger] orphan_fault(list, i) is None,
        first_orphan(list, count) matches Some(i) ==> 0 <= i < count && orphan_fault(list, i)
            is Some,
    decreases count,
{
    if count > 0 {
        lemma_no_orphan(list, count - 1);
        if first_orphan(list, count) is None {
            assert forall|i: int| 0 <= i < count implies #[trigger] orphan_fault(list, i) is None by {
                if i == count - 1 {
                    assert(orphan_fault(list, count - 1) is None);
                }
            }
        } else {
            let i = first_orphan(list, count)->0;
            assert(orphan_fault(list, i) is Some);
        }
    }
}

/// A list of files is taken where it is sound, has a root, and has the
/// directory of each file.
pub proof fn sound_lists_of_files_are_taken(list: Seq<Item>)
    ensures
        snapshot_fault(list) is None <==> {
            &&& 0 < list.len() <= MAX_PANEL_ENTRIES
            &&& sound_items(list)
            &&& exists|i: int| 0 <= i < list.len() && (#[trigger] list[i]).path.len() == 0
            &&& forall|i: int|
                0 <= i < list.len() && (#[trigger] list[i]).path.len() > 0 ==> has_directory(
                    list,
                    parts(list[i].path).drop_last(),
                )
        },
{
    lemma_sound_items(list);
    lemma_no_orphan(list, list.len() as int);
    assert forall|i: int| 0 <= i < list.len() implies (#[trigger] orphan_fault(list, i) is None
        <==> (list[i].path.len() > 0 ==> has_directory(list, parts(list[i].path).drop_last()))) by {
        let above = parts(list[i].path).drop_last();
        if has_directory(list, above) {
            let k = choose|k: int|
                0 <= k < list.len() && at_path(#[trigger] list[k], above) && list[k].directory;
            assert(has_path(list, above));
        }
    }
    if snapshot_fault(list) is None {
        assert forall|i: int|
            0 <= i < list.len() && (#[trigger] list[i]).path.len() > 0 implies has_directory(
            list,
            parts(list[i].path).drop_last(),
        ) by {
            assert(orphan_fault(list, i) is None);
        }
    } else if first_orphan(list, list.len() as int) is Some {
        let i = first_orphan(list, list.len() as int)->0;
        assert(list[i].path.len() > 0);
    }
}

/// What a change needs: one that makes something a target, one that moves or
/// copies both, and they differ, and one that deletes a source.
pub proof fn changes_need_their_paths(
    kind: MutationKind,
    source: Option<Seq<char>>,
    target: Option<Seq<char>>,
)
    ensures
        shape_fault(kind, source, target) is None <==> {
            ||| (kind is CreateFile || kind is CreateDirectory) && source is None && target is Some
            ||| (kind is Rename || kind is Copy) && source is Some && target is Some && parts(
                source->0,
            ) != parts(target->0)
            ||| kind is Delete && source is Some && target is None
        },
{
}

/// A path that can be changed: relative, of plain names alone, and not in the
/// repository's own directory.
pub proof fn paths_that_can_be_changed_are_plain(path: Seq<char>)
    ensures
        mutation_path_fault(path) is None <==> {
            &&& !absolute(path)
            &&& path.len() > 0
            &&& forall|k: int|
                0 <= k < parts(path).len() ==> (#[trigger] parts(path)[k]) is Normal && parts(
                    path,
                )[k] != Part::Normal(".git"@)
        },
{
    let list = parts(path);
    if mutation_path_fault(path) is None {
        assert forall|k: int| 0 <= k < list.len() implies (#[trigger] list[k]) is Normal && list[k]
            != Part::Normal(".git"@) by {
            assert(!metadata_part(list[k]));
            assert(crate::project_panel::plain_part(list[k], false));
        }
    } else if !absolute(path) && path.len() > 0 {
        if path_fault(path, false) is Some {
            let k = choose|k: int|
                0 <= k < list.len() && !crate::project_panel::plain_part(#[trigger] list[k], false);
            assert(!(list[k] is Normal));
        } else {
            let k = choose|k: int| 0 <= k < list.len() && metadata_part(#[trigger] list[k]);
            assert(list[k] == Part::Normal(".git"@));
        }
    }
}

/// A source has to be there, and be a plain file or directory; a target must
/// not be there, nor anything beside it whose name differs in case alone, but
/// the directory it goes to must.
pub proof fn targets_must_be_free(list: Seq<Item>, path: Seq<char>)
    ensures
        source_fault(list, path) is None ==> mutation_path_fault(path) is None && exists|i: int|
            0 <= i < list.len() && parts((#[trigger] list[i]).path) == parts(path)
                && !list[i].external && !list[i].fifo,
        target_fault(list, path) is None ==> {
            &&& mutation_path_fault(path) is None
            &&& forall|i: int|
                0 <= i < list.len() ==> parts((#[trigger] list[i]).path) != parts(path)
            &&& exists|i: int|
                0 <= i < list.len() && parts((#[trigger] list[i]).path) == parts(path).drop_last()
                    && list[i].directory
            &&& forall|k: int| 0 <= k < list.len() ==> !collides(#[trigger] list[k], parts(path))
        },
{
    lemma_path_index(list, parts(path));
    lemma_path_index(list, parts(path).drop_last());
    if source_fault(list, path) is None {
        let i = path_index(list, parts(path))->0;
        assert(parts(list[i].path) == parts(path));
    }
    if target_fault(list, path) is None {
        let i = path_index(list, parts(path).drop_last())->0;
        assert(parts(list[i].path) == parts(path).drop_last());
        assert forall|i: int| 0 <= i < list.len() implies parts((#[trigger] list[i]).path) != parts(
            path,
        ) by {
            if at_path(list[i], parts(path)) {
                assert(has_path(list, parts(path)));
            }
        }
    }
}

/// A target on this machine is taken where it is not there yet, goes into a
/// directory, has a name, and has no sibling whose name differs in case alone.
pub proof fn local_targets_must_be_free(
    relative: Seq<char>,
    there: bool,
    into_directory: bool,
    siblings: Seq<Seq<char>>,
)
    ensures
        local_target_fault(relative, there, into_directory, siblings) is None <==> {
            &&& !there
            &&& into_directory
            &&& name_of(parts(relative)) matches Some(name)
            &&& forall|k: int|
                0 <= k < siblings.len() ==> lowercase(#[trigger] siblings[k]) != lowercase(name)
        },
{
}

/// Changes are planned in the root, keep their kind, and are to be confirmed.
pub proof fn changes_are_planned_in_the_root(
    root: Seq<char>,
    kind: MutationKind,
    source: Option<Seq<char>>,
    target: Option<Seq<char>>,
)
    ensures
        ({
            let plan = planned(root, kind, source, target);
            &&& plan.kind == kind
            &&& plan.requires_confirmation
            &&& plan.source is Some <==> source is Some
            &&& plan.target is Some <==> target is Some
            &&& source matches Some(path) ==> plan.source == Some(crate::paths::joined(root, path))
            &&& target matches Some(path) ==> plan.target == Some(crate::paths::joined(root, path))
        }),
{
}

/// A change is planned where the project is trusted, where its source and its
/// target can be what they are, and where it has the paths it needs.
pub proof fn changes_need_a_trusted_project(
    list: Seq<Item>,
    kind: MutationKind,
    source: Option<Seq<char>>,
    target: Option<Seq<char>>,
    trusted: bool,
)
    ensures
        remote_fault(list, kind, source, target, trusted) is None <==> {
            &&& trusted
            &&& source matches Some(path) ==> source_fault(list, path) is None
            &&& target matches Some(path) ==> target_fault(list, path) is None
            &&& shape_fault(kind, source, target) is None
        },
{
}

/// The selection stays on its file where that is still listed; where the file
/// is gone it goes to the nearest directory above it, where that is listed.
pub proof fn refreshing_keeps_the_selection(files: Files, generation: u64, items: Seq<Item>, i: int)
    requires
        index_of(files.items, files.selected) == Some(i),
    ensures
        ({
            let next = files.refreshed(generation, items);
            let near = nearest(items, parts(files.items[i].path));
            &&& has_id(items, files.selected) && lists_id(items, next.visible(), files.selected)
                ==> next.selected == files.selected
            &&& !has_id(items, files.selected) && lists_id(items, next.visible(), near)
                ==> next.selected == near
        }),
{
}

/// Two names collide where they are in one directory and differ in case alone.
pub proof fn names_collide_in_one_directory(
    item: Item,
    front: Seq<Part>,
    name: Seq<char>,
    other: Seq<Part>,
    wanted: Seq<char>,
)
    requires
        parts(item.path) == front.push(Part::Normal(name)),
    ensures
        collides(item, other.push(Part::Normal(wanted))) <==> front == other && lowercase(name)
            == lowercase(wanted),
{
    assert(front.push(Part::Normal(name)).drop_last() =~= front);
    assert(other.push(Part::Normal(wanted)).drop_last() =~= other);
}

/// A path on disk can be changed just where it is plain, lies beneath the root
/// however its links are resolved, and exists if it has to; and the fault that is
/// told is the one that it has.
pub proof fn resolved_paths_lie_beneath_the_root(
    root: Seq<char>,
    relative: Seq<char>,
    existing: Seq<char>,
    missing: Seq<Seq<char>>,
    must_exist: bool,
)
    ensures
        ({
            let fault = resolve_fault(root, relative, existing, missing, must_exist);
            let plain = mutation_path_fault(relative) is None;
            let base = parts(root);
            let there = parts(existing);
            let whole = parts(extended(existing, missing));
            let links_stay = base.len() <= there.len() && forall|i: int|
                0 <= i < base.len() ==> #[trigger] there[i] == base[i];
            let whole_stays = base.len() <= whole.len() && forall|i: int|
                0 <= i < base.len() ==> #[trigger] whole[i] == base[i];
            &&& fault is None <==> plain && links_stay && whole_stays && (must_exist ==> missing.len()
                == 0)
            &&& plain && must_exist && missing.len() > 0 ==> fault == Some(
                PanelFault::SourceDoesNotExist,
            )
            &&& plain && !must_exist && !links_stay ==> fault == Some(
                PanelFault::EscapesThroughSymlink,
            )
            &&& plain && !must_exist && links_stay && !whole_stays ==> fault == Some(
                PanelFault::Escapes,
            )
        }),
{
    let base = parts(root);
    let there = parts(existing);
    let whole = parts(extended(existing, missing));
    let n = base.len() as int;
    if n <= there.len() {
        if forall|i: int| 0 <= i < n ==> #[trigger] there[i] == base[i] {
            assert(there.take(n) =~= base);
        } else {
            let i = choose|i: int| 0 <= i < n && #[trigger] there[i] != base[i];
            assert(there.take(n)[i] == there[i]);
        }
    }
    if n <= whole.len() {
        if forall|i: int| 0 <= i < n ==> #[trigger] whole[i] == base[i] {
            assert(whole.take(n) =~= base);
        } else {
            let i = choose|i: int| 0 <= i < n && #[trigger] whole[i] != base[i];
            assert(whole.take(n)[i] == whole[i]);
        }
    }
}

/// A change to the files on disk is made only where the project is trusted, what
/// is changed exists, and is a plain file or directory, and what is made stands
/// nowhere yet, in a directory.
pub proof fn local_changes_are_sound(
    root: Seq<char>,
    kind: MutationKind,
    source: Option<SourceFacts>,
    target: Option<TargetFacts>,
    trusted: bool,
)
    requires
        local_fault(root, kind, source, target, trusted) is None,
    ensures
        trusted,
        source matches Some(facts) ==> {
            &&& facts.path.missing@.len() == 0
            &&& facts.kind != FileKind::Symlink && facts.kind != FileKind::Special
            &&& mutation_path_fault(facts.path.relative@) is None
        },
        target matches Some(facts) ==> {
            &&& !facts.exists && facts.parent_is_directory
            &&& mutation_path_fault(facts.path.relative@) is None
        },
{
    if let Some(facts) = source {
        resolved_paths_lie_beneath_the_root(
            root,
            facts.path.relative@,
            facts.path.existing@,
            texts(facts.path.missing@),
            true,
        );
    }
}

/// A source that is gone is told before anything else of a trusted project.
pub proof fn sources_must_exist(
    root: Seq<char>,
    kind: MutationKind,
    source: Option<SourceFacts>,
    target: Option<TargetFacts>,
)
    ensures
        source matches Some(facts) ==> (mutation_path_fault(facts.path.relative@) is None
            && facts.path.missing@.len() > 0 ==> local_fault(root, kind, source, target, true)
            == Some(PanelFault::SourceDoesNotExist)),
{
}

/// A change is made where nothing stands against it.
pub proof fn sound_local_changes_are_made(
    root: Seq<char>,
    kind: MutationKind,
    source: Option<SourceFacts>,
    target: Option<TargetFacts>,
)
    requires
        source matches Some(facts) ==> {
            &&& resolve_fault(
                root,
                facts.path.relative@,
                facts.path.existing@,
                texts(facts.path.missing@),
                true,
            ) is None
            &&& facts.kind != FileKind::Symlink && facts.kind != FileKind::Special
        },
        target matches Some(facts) ==> {
            &&& resolve_fault(
                root,
                facts.path.relative@,
                facts.path.existing@,
                texts(facts.path.missing@),
                false,
            ) is None
            &&& local_target_fault(
                facts.path.relative@,
                facts.exists,
                facts.parent_is_directory,
                texts(facts.siblings@),
            ) is None
        },
        shape_fault(
            kind,
            match source {
                Some(facts) => Some(facts.path.relative@),
                None => None,
            },
            match target {
                Some(facts) => Some(facts.path.relative@),
                None => None,
            },
        ) is None,
    ensures
        local_fault(root, kind, source, target, true) is None,
{
}

} // verus!
