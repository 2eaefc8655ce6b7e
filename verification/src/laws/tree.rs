//! Laws of the tree of files.

use vstd::prelude::*;

use crate::features::context::{Command, Purpose, Scene};
use crate::features::project_panel::{
    all_rows, asked, children, commanded, entry_order, entry_precedes, last_at, leaf, leaf_row,
    listed_in, named, new_directory, parent_leaf, row_of, selected_leaf, sorted_children, tree_rows,
    Browser, Change, Leaf, TreeEntry,
};
use crate::geometry::lemma_kept;
use crate::input::lowercase;
use crate::order::{orders, stable_order, the_order_exists};
use crate::paths::{directory_of, joined};
use crate::text::{ends, lemma_precedes_strict, lemma_precedes_transitive, precedes, starts};
use crate::features::project_panel::panel_title;
use crate::paths::{name_of, parts};

verus! {

proof fn lemma_entries_are_ordered(tree: Seq<TreeEntry>, list: Seq<int>)
    ensures
        orders(list.len() as int, entry_order(tree, list)),
{
    let before = entry_order(tree, list);
    let name = |i: int| lowercase(tree[list[i]].name@);
    assert forall|i: int, j: int|
        0 <= i < list.len() && 0 <= j < list.len() && #[trigger] before(i, j) implies !before(
        j,
        i,
    ) by {
        lemma_precedes_strict(name(i), name(j));
    }
    assert forall|i: int, j: int, k: int|
        0 <= i < list.len() && 0 <= j < list.len() && 0 <= k < list.len() && !(#[trigger] before(
            i,
            j,
        )) && !(#[trigger] before(j, k)) implies !before(i, k) by {
        let (a, b, c) = (name(i), name(j), name(k));
        lemma_precedes_strict(a, b);
        lemma_precedes_strict(b, c);
        lemma_precedes_strict(a, c);
        if precedes(c, b) && precedes(b, a) {
            lemma_precedes_transitive(c, b, a);
        }
    }
}

/// In a directory the directories come first, then the files, both by their
/// names in lower case.
pub proof fn directories_come_first(
    tree: Seq<TreeEntry>,
    directory: int,
    show_ignored: bool,
    a: int,
    b: int,
)
    requires
        0 <= a < b < sorted_children(tree, directory, show_ignored).len(),
    ensures
        ({
            let list = sorted_children(tree, directory, show_ignored);
            let (up, down) = (tree[list[a]], tree[list[b]]);
            &&& down.is_dir ==> up.is_dir
            &&& up.is_dir == down.is_dir ==> !precedes(lowercase(down.name@), lowercase(up.name@))
        }),
{
    let list = children(tree, directory, show_ignored);
    let before = entry_order(tree, list);
    lemma_entries_are_ordered(tree, list);
    the_order_exists(list.len() as int, before);
    let order = stable_order(list.len() as int, before);
    let (i, j) = (order[a], order[b]);
    assert(before(i, j) || !before(j, i) && i < j);
    assert(before(i, j) == entry_precedes(tree[list[i]], tree[list[j]]));
    assert(before(j, i) == entry_precedes(tree[list[j]], tree[list[i]]));
    lemma_precedes_strict(lowercase(tree[list[i]].name@), lowercase(tree[list[j]].name@));
}

/// What is listed in a directory is what lies in it; what is ignored is listed
/// where that was asked for.
pub proof fn directories_list_what_lies_in_them(
    tree: Seq<TreeEntry>,
    directory: int,
    show_ignored: bool,
    n: int,
)
    requires
        0 <= directory < n < tree.len(),
    ensures
        sorted_children(tree, directory, show_ignored).contains(n) <==> tree[n].parent == directory
            && (show_ignored || !tree[n].is_ignored),
{
    let keep = listed_in(tree, directory, show_ignored);
    let list = children(tree, directory, show_ignored);
    let before = entry_order(tree, list);
    lemma_kept(0, tree.len() as int, keep);
    lemma_entries_are_ordered(tree, list);
    the_order_exists(list.len() as int, before);
    let order = stable_order(list.len() as int, before);
    let sorted = sorted_children(tree, directory, show_ignored);
    if sorted.contains(n) {
        let k = choose|k: int| 0 <= k < sorted.len() && sorted[k] == n;
        assert(keep(list[order[k]]));
    }
    if keep(n) {
        assert(list.contains(n));
        let i = choose|i: int| 0 <= i < list.len() && list[i] == n;
        assert(order.contains(i));
        let k = choose|k: int| 0 <= k < order.len() && order[k] == i;
        assert(sorted[k] == n);
    }
}

/// A row is at most one level deeper than the one above it, and deeper only
/// where that is a directory that is open.
pub open spec fn nested(rows: Seq<Leaf>, k: int) -> bool {
    k > 0 ==> rows[k].depth <= rows[k - 1].depth + 1 && (rows[k].depth > rows[k - 1].depth
        ==> rows[k - 1].is_dir && rows[k - 1].expanded)
}

/// Rows that start at a level, and never go above it.
pub open spec fn well_nested(rows: Seq<Leaf>, depth: int) -> bool {
    &&& rows.len() > 0 ==> rows[0].depth == depth
    &&& forall|k: int| 0 <= k < rows.len() ==> (#[trigger] rows[k]).depth >= depth
    &&& forall|k: int| 0 <= k < rows.len() ==> #[trigger] nested(rows, k)
}

proof fn lemma_nested_join(a: Seq<Leaf>, b: Seq<Leaf>, depth: int, inner: int)
    requires
        well_nested(a, depth),
        well_nested(b, inner),
        a.len() > 0,
        inner == depth + 1 && a.last().is_dir && a.last().expanded && a.last().depth == depth,
    ensures
        well_nested(a + b, depth),
{
    let all = a + b;
    assert forall|k: int| 0 <= k < all.len() implies #[trigger] nested(all, k) by {
        if k < a.len() {
            assert(nested(a, k));
        } else {
            assert(nested(b, k - a.len()));
            if k == a.len() {
                assert(all[k - 1] == a.last());
            }
        }
    }
    assert forall|k: int| 0 <= k < all.len() implies (#[trigger] all[k]).depth >= depth by {
        if k < a.len() {
            assert(a[k].depth >= depth);
        } else {
            assert(b[k - a.len()].depth >= inner);
        }
    }
}

proof fn lemma_rows_are_nested(
    tree: Seq<TreeEntry>,
    expanded: Set<u64>,
    show_ignored: bool,
    directory: int,
    count: int,
    depth: int,
)
    ensures
        well_nested(tree_rows(tree, expanded, show_ignored, directory, count, depth), depth),
    decreases tree.len() - directory, count,
{
    if count > 0 {
        let before = tree_rows(tree, expanded, show_ignored, directory, count - 1, depth);
        lemma_rows_are_nested(tree, expanded, show_ignored, directory, count - 1, depth);
        let child = sorted_children(tree, directory, show_ignored)[count - 1];
        let own = before.push(leaf(tree[child], depth, expanded));
        assert(well_nested(own, depth)) by {
            assert forall|k: int| 0 <= k < own.len() implies #[trigger] nested(own, k) by {
                if k < before.len() {
                    assert(nested(before, k));
                } else if k > 0 {
                    assert(before[k - 1].depth >= depth);
                }
            }
            assert forall|k: int| 0 <= k < own.len() implies (#[trigger] own[k]).depth >= depth by {
                if k < before.len() {
                    assert(before[k].depth >= depth);
                }
            }
        }
        if tree[child].is_dir && expanded.contains(tree[child].id) && directory < child
            < tree.len() {
            let more = sorted_children(tree, child, show_ignored).len() as int;
            lemma_rows_are_nested(tree, expanded, show_ignored, child, more, depth + 1);
            lemma_nested_join(
                own,
                tree_rows(tree, expanded, show_ignored, child, more, depth + 1),
                depth,
                depth + 1,
            );
        }
    }
}

/// The rows start at the root's own entries; beneath a row stands what lies in
/// it, where it is a directory that is open, and nothing where it is not.
pub proof fn rows_lie_beneath_their_directories(
    tree: Seq<TreeEntry>,
    expanded: Set<u64>,
    show_ignored: bool,
)
    ensures
        well_nested(all_rows(tree, expanded, show_ignored), 0),
{
    if tree.len() > 0 {
        lemma_rows_are_nested(
            tree,
            expanded,
            show_ignored,
            0,
            sorted_children(tree, 0, show_ignored).len() as int,
            0,
        );
    }
}

/// The row of an entry tells its path, its name and whether it is ignored;
/// only a directory can be open.
pub proof fn rows_tell_their_entries(entry: TreeEntry, depth: int, expanded: Set<u64>)
    ensures
        ({
            let own = leaf(entry, depth, expanded);
            &&& own.id == entry.id && own.path == entry.path@ && own.name == entry.name@
            &&& own.is_dir == entry.is_dir && own.ignored == entry.is_ignored
            &&& own.depth == depth
            &&& own.expanded <==> entry.is_dir && expanded.contains(entry.id)
        }),
{
}

proof fn lemma_last_at(rows: Seq<Leaf>, to: int, depth: int)
    requires
        0 <= to <= rows.len(),
    ensures
        match last_at(rows, to, depth) {
            Some(p) => 0 <= p < to && rows[p].depth == depth && forall|k: int|
                p < k < to ==> (#[trigger] rows[k]).depth != depth,
            None => forall|k: int| 0 <= k < to ==> (#[trigger] rows[k]).depth != depth,
        },
    decreases to,
{
    if to > 0 && rows[to - 1].depth != depth {
        lemma_last_at(rows, to - 1, depth);
    }
}

/// The row that another lies beneath is the nearest above it that is one level
/// less deep; a row at the top lies beneath none.
pub proof fn rows_belong_to_the_nearest_row_above(rows: Seq<Leaf>, index: int)
    requires
        0 <= index < rows.len(),
    ensures
        match parent_leaf(rows, index) {
            Some(p) => 0 <= p < index && rows[p].depth == rows[index].depth - 1 && forall|k: int|
                p < k < index ==> (#[trigger] rows[k]).depth != rows[index].depth - 1,
            None => rows[index].depth <= 0 || forall|k: int|
                0 <= k < index ==> (#[trigger] rows[k]).depth != rows[index].depth - 1,
        },
{
    if rows[index].depth > 0 {
        lemma_last_at(rows, index, rows[index].depth - 1);
    }
}

proof fn lemma_row_of(rows: Seq<Leaf>, id: u64)
    ensures
        match row_of(rows, id) {
            Some(i) => 0 <= i < rows.len() && rows[i].id == id && forall|k: int|
                0 <= k < i ==> (#[trigger] rows[k]).id != id,
            None => forall|k: int| 0 <= k < rows.len() ==> (#[trigger] rows[k]).id != id,
        },
    decreases rows.len(),
{
    if rows.len() > 0 {
        let front = rows.drop_last();
        lemma_row_of(front, id);
        assert forall|k: int| 0 <= k < front.len() implies #[trigger] rows[k] == front[k] by {}
    }
}

/// The selected row is that of the selected entry; where it is not listed it
/// is the first row.
pub proof fn the_selected_row_is_the_entrys(rows: Seq<Leaf>, id: u64, k: int)
    requires
        0 <= k < rows.len(),
    ensures
        selected_leaf(rows, Some(id)) matches Some(i) && 0 <= i < rows.len() && (rows[k].id == id
            ==> i <= k && rows[i].id == id) && (rows[i].id != id ==> i == 0),
        selected_leaf(rows, None) == Some(0int),
{
    lemma_row_of(rows, id);
}

/// Commands go to the next row or to the one before, open and close
/// directories, and go to the directory that a row lies in.
pub proof fn commands_move_along_the_rows(browser: Browser, rows: Seq<Leaf>, index: int, command: Command)
    requires
        0 <= index < rows.len(),
        browser.selected == Some(rows[index].id),
    ensures
        ({
            let next = browser.moved(command, rows, index);
            let own = rows[index];
            let at = |k: int| Some(rows[k].id);
            &&& next.show_ignored == browser.show_ignored && next.first_row == browser.first_row
            &&& command is PanelSelectNext ==> next.expanded == browser.expanded && next.selected
                == at(
                if index + 1 < rows.len() {
                    index + 1
                } else {
                    index
                },
            )
            &&& command is PanelSelectPrevious ==> next.expanded == browser.expanded
                && next.selected == at(
                if index > 0 {
                    index - 1
                } else {
                    index
                },
            )
            &&& command is PanelExpand && own.is_dir && !own.expanded ==> next.expanded.contains(
                own.id,
            ) && next.selected == browser.selected
            &&& command is PanelExpand && (!own.is_dir || own.expanded) ==> next.expanded
                == browser.expanded && next.selected == at(
                if index + 1 < rows.len() {
                    index + 1
                } else {
                    index
                },
            )
            &&& command is PanelCollapse && own.expanded ==> !next.expanded.contains(own.id)
                && next.selected == browser.selected
            &&& command is PanelCollapse && !own.expanded ==> next.expanded == browser.expanded
                && next.selected == at(
                match parent_leaf(rows, index) {
                    Some(p) => p,
                    None => index,
                },
            )
            &&& command is PanelActivate && own.is_dir ==> next.selected == browser.selected && (
            next.expanded.contains(own.id) <==> !browser.expanded.contains(own.id))
            &&& command is PanelActivate && !own.is_dir ==> next == browser
            &&& forall|id: u64|
                id != own.id ==> (#[trigger] next.expanded.contains(id)
                    <==> browser.expanded.contains(id))
        }),
{
    rows_belong_to_the_nearest_row_above(rows, index);
}

/// A new file or directory is made in the selected directory, or beside the
/// selected file; with nothing selected, in the root.
pub proof fn new_entries_are_made_where_the_selection_is(
    own: Leaf,
    scene: Scene,
    hint: Seq<char>,
    found: bool,
    ignored: bool,
)
    ensures
        new_directory(Some(own), scene.root) == if own.is_dir {
            Some(own.path)
        } else {
            directory_of(own.path)
        },
        new_directory(None, scene.root) == scene.root,
        own.is_dir ==> {
            let file = commanded(Command::PanelNewFile, false, Some(own), scene, hint, found, ignored);
            let directory = commanded(
                Command::PanelNewDirectory,
                false,
                Some(own),
                scene,
                hint,
                found,
                ignored,
            );
            &&& file.layers.len() == 1 && file.layers[0] is Prompt
            &&& file.layers[0]->target == (Purpose::PanelNewFile { directory: own.path })
            &&& file.layers[0]->line.text.len() == 0
            &&& directory.layers.len() == 1 && directory.layers[0] is Prompt
            &&& directory.layers[0]->target == (Purpose::PanelNewDirectory { directory: own.path })
        },
{
}

/// A rename asks for the new name with the present one in the prompt.
pub proof fn renames_start_with_the_present_name(
    own: Leaf,
    scene: Scene,
    hint: Seq<char>,
    found: bool,
    ignored: bool,
)
    requires
        directory_of(own.path) is Some,
    ensures
        ({
            let next = commanded(Command::PanelRename, false, Some(own), scene, hint, found, ignored);
            &&& next.layers.len() == 1 && next.layers[0] is Prompt
            &&& next.layers[0]->line.text == own.name
            &&& next.layers[0]->target == (Purpose::PanelRename {
                entry: own.id,
                directory: directory_of(own.path)->0,
            })
        }),
{
}

/// Nothing is deleted before it was confirmed: the first time it is asked for,
/// over all that is shown, and the second time the selected entry goes.
pub proof fn deletions_are_confirmed(
    own: Leaf,
    scene: Scene,
    hint: Seq<char>,
    found: bool,
    ignored: bool,
    command: Command,
)
    ensures
        ({
            let next = commanded(Command::PanelDelete, false, Some(own), scene, hint, found, ignored);
            &&& next.layers.len() == scene.layers.len() + 1
            &&& next.layers.last() is Confirm
            &&& next.layers.last()->command is PanelDelete
            &&& starts(next.layers.last()->message, "delete "@ + own.name)
        }),
        asked(command, false, Some(own)) is None,
        asked(Command::PanelDelete, true, Some(own)) matches Some(errand) && errand.mutation
            == Change::Delete(own.id) && ends(errand.description, own.name),
        asked(command, true, Some(own)) is Some ==> command is PanelDelete,
{
    let front = "delete "@ + own.name;
    let all = front + "? press "@ + hint + " again to confirm"@;
    assert(all.take(front.len() as int) =~= front);
    let told = "deleted "@ + own.name;
    assert(told.skip(told.len() - own.name.len()) =~= own.name);
}

/// What is named is made or renamed in the directory that was meant, and shown
/// afterwards.
pub proof fn names_are_put_in_their_directory(
    directory: Seq<char>,
    name: Seq<char>,
    entry: u64,
    root: Option<Seq<char>>,
)
    ensures
        named(Purpose::PanelNewFile { directory }, name, root) matches Some(errand)
            && errand.mutation == (Change::Create {
            path: joined(directory, name),
            is_directory: false,
        }) && errand.reveal == Some(joined(directory, name)),
        named(Purpose::PanelNewDirectory { directory }, name, root) matches Some(errand)
            && errand.mutation == (Change::Create {
            path: joined(directory, name),
            is_directory: true,
        }) && errand.reveal == Some(joined(directory, name)),
        named(Purpose::PanelRename { entry, directory }, name, root) matches Some(errand)
            && errand.mutation == (Change::Rename { entry, path: joined(directory, name) })
            && errand.reveal == Some(joined(directory, name)),
{
}

/// A row is indented by two columns for each level, marks directories as open
/// or closed, and tells where an entry is ignored; such a one cannot be chosen.
pub proof fn rows_are_drawn_as_a_tree(own: Leaf)
    requires
        0 <= own.depth,
    ensures
        ({
            let shown = leaf_row(own);
            &&& shown.enabled <==> !own.ignored
            &&& forall|i: int| 0 <= i < 2 * own.depth ==> #[trigger] shown.text[i] == ' '
            &&& shown.text.len() >= 2 * own.depth + 2 + own.name.len()
            &&& shown.text.subrange(2 * own.depth, 2 * own.depth + 2) == if !own.is_dir {
                "  "@
            } else if own.expanded {
                "\u{25be} "@
            } else {
                "\u{25b8} "@
            }
            &&& shown.text.subrange(2 * own.depth + 2, 2 * own.depth + 2 + own.name.len())
                == own.name
            &&& own.ignored ==> ends(shown.text, own.name + " [ignored]"@)
            &&& !own.ignored ==> ends(shown.text, own.name)
        }),
{
    let shown = leaf_row(own);
    reveal_strlit("  ");
    reveal_strlit("\u{25be} ");
    reveal_strlit("\u{25b8} ");
    let mark = if !own.is_dir {
        "  "@
    } else if own.expanded {
        "\u{25be} "@
    } else {
        "\u{25b8} "@
    };
    assert(shown.text.subrange(2 * own.depth, 2 * own.depth + 2) =~= mark);
    assert(shown.text.subrange(2 * own.depth + 2, 2 * own.depth + 2 + own.name.len())
        =~= own.name);
    let end = if own.ignored {
        own.name + " [ignored]"@
    } else {
        own.name
    };
    assert(shown.text.skip(shown.text.len() - end.len()) =~= end);
}

/// The title of the panel is the name of the root, and tells whether what is
/// ignored is shown.
pub proof fn titles_tell_the_root(root: Seq<char>, name: Seq<char>)
    requires
        name_of(parts(root)) == Some(name),
    ensures
        panel_title(Some(root), false) == " "@ + name + " "@,
        panel_title(Some(root), true) == " "@ + name + " +ignored"@ + " "@,
{
    assert(" "@ + name + Seq::<char>::empty() + " "@ =~= " "@ + name + " "@);
}

} // verus!
