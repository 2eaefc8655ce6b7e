//! The panel of the files of the project, as a tree. It keeps which
//! directories are open, which entry is selected, and whether ignored entries
//! are shown; the tree is read anew each time.

use std::collections::BTreeSet;

use vstd::prelude::*;
use vstd::string::*;

use crate::features::context::{
    prompt, prompt_layer, Command, Ctx, Layer, Outcome, Overlay, PanelOutcome, PromptTarget,
    Purpose, Scene,
};
use crate::geometry::{kept, lemma_kept, numbers, window_start, window_start_of};
use crate::input::lowercase;
use crate::order::{orders, sort_order, sorts, stable_order, the_order_exists, Ordered};
use crate::outline_panel::{indent, indentation};
use crate::overlay::{push_row, row, row_texts, RowText};
use crate::paths::{
    absolute, components, directory, directory_of, file_name, is_absolute, join, joined, name_of,
    parts, same_path, show_path, shown_path,
};
use crate::render::{OverlayRow, OverlaySnapshot};
use crate::text::{
    comes_before, lemma_precedes_strict, lemma_precedes_transitive, optional_text, precedes, trim,
    trimmed,
};

verus! {

broadcast use {vstd::string::group_string_axioms, vstd::std_specs::btree::group_btree_axioms};

/// The key context of this panel's own bindings.
pub const KEY_CONTEXT: &'static str = "zec_project_panel";

/// An entry of the tree of files. The entries stand in a list in which each
/// directory comes before what is in it, and the root first.
#[derive(Debug)]
pub struct TreeEntry {
    pub id: u64,
    /// The index of the directory that it is in. The root's own is not read.
    pub parent: usize,
    /// Its path from the root of the file system.
    pub path: String,
    pub name: String,
    pub is_dir: bool,
    pub is_ignored: bool,
}

/// A row of the tree.
#[derive(Debug)]
pub struct Row {
    pub id: u64,
    pub path: String,
    pub name: String,
    pub is_dir: bool,
    pub depth: usize,
    pub ignored: bool,
    pub expanded: bool,
}

/// The plain values of a [`Row`].
pub struct Leaf {
    pub id: u64,
    pub path: Seq<char>,
    pub name: Seq<char>,
    pub is_dir: bool,
    pub depth: int,
    pub ignored: bool,
    pub expanded: bool,
}

impl View for Row {
    type V = Leaf;

    open spec fn view(&self) -> Leaf {
        Leaf {
            id: self.id,
            path: self.path@,
            name: self.name@,
            is_dir: self.is_dir,
            depth: self.depth as int,
            ignored: self.ignored,
            expanded: self.expanded,
        }
    }
}

/// The plain values of some rows.
pub open spec fn leaf_list(list: Seq<Row>) -> Seq<Leaf> {
    Seq::new(list.len(), |i: int| list[i]@)
}

/// Whether an entry is listed in a directory.
pub open spec fn listed_in(tree: Seq<TreeEntry>, directory: int, show_ignored: bool) -> spec_fn(
    int,
) -> bool {
    |i: int|
        i > directory && tree[i].parent == directory && (show_ignored || !tree[i].is_ignored)
}

/// The entries of a directory, as they stand in the list.
pub open spec fn children(tree: Seq<TreeEntry>, directory: int, show_ignored: bool) -> Seq<int> {
    kept(0, tree.len() as int, listed_in(tree, directory, show_ignored))
}

/// Whether an entry is listed before another: directories before files, then
/// by name whatever its case.
pub open spec fn entry_precedes(a: TreeEntry, b: TreeEntry) -> bool {
    a.is_dir && !b.is_dir || a.is_dir == b.is_dir && precedes(
        lowercase(a.name@),
        lowercase(b.name@),
    )
}

/// The order of some entries.
pub open spec fn entry_order(tree: Seq<TreeEntry>, list: Seq<int>) -> spec_fn(int, int) -> bool {
    |i: int, j: int| entry_precedes(tree[list[i]], tree[list[j]])
}

/// The entries of a directory, in their order.
pub open spec fn sorted_children(
    tree: Seq<TreeEntry>,
    directory: int,
    show_ignored: bool,
) -> Seq<int> {
    let list = children(tree, directory, show_ignored);
    let order = stable_order(list.len() as int, entry_order(tree, list));
    Seq::new(list.len(), |k: int| list[order[k]])
}

/// The row of an entry.
pub open spec fn leaf(entry: TreeEntry, depth: int, expanded: Set<u64>) -> Leaf {
    Leaf {
        id: entry.id,
        path: entry.path@,
        name: entry.name@,
        is_dir: entry.is_dir,
        depth,
        ignored: entry.is_ignored,
        expanded: entry.is_dir && expanded.contains(entry.id),
    }
}

/// The rows of the first `count` entries of a directory, each with those of
/// what is in it where it is open.
pub open spec fn tree_rows(
    tree: Seq<TreeEntry>,
    expanded: Set<u64>,
    show_ignored: bool,
    directory: int,
    count: int,
    depth: int,
) -> Seq<Leaf>
    decreases tree.len() - directory, count,
{
    if count <= 0 {
        Seq::empty()
    } else {
        let before = tree_rows(tree, expanded, show_ignored, directory, count - 1, depth);
        let child = sorted_children(tree, directory, show_ignored)[count - 1];
        let own = before.push(leaf(tree[child], depth, expanded));
        if tree[child].is_dir && expanded.contains(tree[child].id) && directory < child
            < tree.len() {
            own + tree_rows(
                tree,
                expanded,
                show_ignored,
                child,
                sorted_children(tree, child, show_ignored).len() as int,
                depth + 1,
            )
        } else {
            own
        }
    }
}

/// The rows of a tree.
pub open spec fn all_rows(tree: Seq<TreeEntry>, expanded: Set<u64>, show_ignored: bool) -> Seq<Leaf> {
    if tree.len() == 0 {
        Seq::empty()
    } else {
        tree_rows(
            tree,
            expanded,
            show_ignored,
            0,
            sorted_children(tree, 0, show_ignored).len() as int,
            0,
        )
    }
}

struct Siblings<'a> {
    tree: &'a Vec<TreeEntry>,
    list: &'a Vec<usize>,
    keys: &'a Vec<String>,
}

impl<'a> Siblings<'a> {
    spec fn entry(&self, i: int) -> TreeEntry {
        self.tree@[self.list@[i] as int]
    }

    spec fn valid(&self) -> bool {
        &&& self.list@.len() == self.keys@.len()
        &&& forall|i: int| 0 <= i < self.list@.len() ==> (#[trigger] self.list@[i]) < self.tree@.len()
        &&& forall|i: int|
            0 <= i < self.list@.len() ==> (#[trigger] self.keys@[i])@ == lowercase(
                self.tree@[self.list@[i] as int].name@,
            )
    }
}

impl<'a> Ordered for Siblings<'a> {
    closed spec fn count(&self) -> nat {
        if self.valid() {
            self.list@.len()
        } else {
            0
        }
    }

    closed spec fn before(&self, i: int, j: int) -> bool {
        entry_precedes(self.entry(i), self.entry(j))
    }

    proof fn before_is_asymmetric(&self, i: int, j: int) {
        lemma_precedes_strict(lowercase(self.entry(i).name@), lowercase(self.entry(j).name@));
    }

    proof fn after_is_transitive(&self, i: int, j: int, k: int) {
        let a = lowercase(self.entry(i).name@);
        let b = lowercase(self.entry(j).name@);
        let c = lowercase(self.entry(k).name@);
        lemma_precedes_strict(a, b);
        lemma_precedes_strict(b, c);
        lemma_precedes_strict(a, c);
        if precedes(c, b) && precedes(b, a) {
            lemma_precedes_transitive(c, b, a);
        }
    }

    fn is_before(&self, i: usize, j: usize) -> (result: bool) {
        assert(self.keys@[i as int]@ == lowercase(self.entry(i as int).name@));
        assert(self.keys@[j as int]@ == lowercase(self.entry(j as int).name@));
        assert(self.list@[i as int] < self.tree@.len());
        assert(self.list@[j as int] < self.tree@.len());
        let left = &self.tree[self.list[i]];
        let right = &self.tree[self.list[j]];
        left.is_dir && !right.is_dir || left.is_dir == right.is_dir && comes_before(
            self.keys[i].as_str(),
            self.keys[j].as_str(),
        )
    }
}

fn sort_children(tree: &Vec<TreeEntry>, directory: usize, show_ignored: bool) -> (result: Vec<usize>)
    requires
        directory < tree@.len(),
    ensures
        numbers(result@) == sorted_children(tree@, directory as int, show_ignored),
        forall|k: int| 0 <= k < result@.len() ==> directory < #[trigger] result@[k] < tree@.len(),
{
    let ghost keep = listed_in(tree@, directory as int, show_ignored);
    let ghost all = children(tree@, directory as int, show_ignored);
    let mut list: Vec<usize> = Vec::new();
    let mut keys: Vec<String> = Vec::new();
    let mut i: usize = 0;
    assert(numbers(list@) =~= kept(0, 0, keep));
    while i < tree.len()
        invariant
            i <= tree@.len(),
            keep == listed_in(tree@, directory as int, show_ignored),
            numbers(list@) == kept(0, i as int, keep),
            list@.len() == keys@.len(),
            forall|k: int| 0 <= k < list@.len() ==> directory < (#[trigger] list@[k]) < tree@.len(),
            forall|k: int|
                0 <= k < list@.len() ==> (#[trigger] keys@[k])@ == lowercase(
                    tree@[list@[k] as int].name@,
                ),
        decreases tree@.len() - i,
    {
        let entry = &tree[i];
        let ghost before = list@;
        if i > directory && entry.parent == directory && (show_ignored || !entry.is_ignored) {
            list.push(i);
            keys.push(entry.name.as_str().to_lowercase());
            assert(numbers(list@) =~= numbers(before).push(i as int));
        }
        i += 1;
    }
    let siblings = Siblings { tree, list: &list, keys: &keys };
    let ghost before = entry_order(tree@, all);
    proof {
        assert forall|a: int, b: int| 0 <= a < all.len() && 0 <= b < all.len() implies (
        #[trigger] before(a, b)) == siblings.before(a, b) by {
            assert(all[a] == list@[a] && all[b] == list@[b]);
        }
    }
    let order = sort_order(&siblings, list.len(), Ghost(before));
    let mut result: Vec<usize> = Vec::new();
    let mut k: usize = 0;
    while k < order.len()
        invariant
            k <= order@.len() == all.len() == list@.len(),
            all == numbers(list@),
            sorts(numbers(order@), all.len() as int, before),
            forall|n: int| 0 <= n < list@.len() ==> directory < (#[trigger] list@[n]) < tree@.len(),
            result@.len() == k,
            forall|n: int|
                0 <= n < k ==> #[trigger] result@[n] == list@[order@[n] as int] && directory
                    < result@[n] < tree@.len(),
        decreases order@.len() - k,
    {
        assert(numbers(order@)[k as int] == order@[k as int]);
        result.push(list[order[k]]);
        k += 1;
    }
    proof {
        let sorted = sorted_children(tree@, directory as int, show_ignored);
        assert forall|n: int| 0 <= n < sorted.len() implies numbers(result@)[n] == sorted[n] by {
            assert(numbers(order@)[n] == order@[n]);
            assert(all[order@[n] as int] == list@[order@[n] as int]);
            assert(result@[n] == list@[order@[n] as int]);
        }
        assert(numbers(result@) =~= sorted);
    }
    result
}

fn push_children(
    tree: &Vec<TreeEntry>,
    expanded: &BTreeSet<u64>,
    show_ignored: bool,
    directory: usize,
    depth: usize,
    rows: &mut Vec<Row>,
)
    requires
        directory < tree@.len(),
        depth <= directory,
    ensures
        leaf_list(final(rows)@) == leaf_list(old(rows)@) + tree_rows(
            tree@,
            expanded@,
            show_ignored,
            directory as int,
            sorted_children(tree@, directory as int, show_ignored).len() as int,
            depth as int,
        ),
    decreases tree@.len() - directory,
{
    let list = sort_children(tree, directory, show_ignored);
    let ghost sorted = sorted_children(tree@, directory as int, show_ignored);
    let ghost start = leaf_list(rows@);
    let mut k: usize = 0;
    assert(leaf_list(rows@) =~= start + tree_rows(
        tree@,
        expanded@,
        show_ignored,
        directory as int,
        0,
        depth as int,
    ));
    while k < list.len()
        invariant
            k <= list@.len(),
            directory < tree@.len(),
            depth <= directory,
            sorted == sorted_children(tree@, directory as int, show_ignored),
            numbers(list@) == sorted,
            forall|n: int| 0 <= n < list@.len() ==> directory < #[trigger] list@[n] < tree@.len(),
            leaf_list(rows@) == start + tree_rows(
                tree@,
                expanded@,
                show_ignored,
                directory as int,
                k as int,
                depth as int,
            ),
        decreases list@.len() - k,
    {
        let child: usize = list[k];
        let entry = &tree[child];
        let open = entry.is_dir && expanded.contains(&entry.id);
        let ghost before = leaf_list(rows@);
        let ghost earlier = tree_rows(
            tree@,
            expanded@,
            show_ignored,
            directory as int,
            k as int,
            depth as int,
        );
        let ghost own = leaf(*entry, depth as int, expanded@);
        assert(sorted[k as int] == child);
        let ghost old_rows = rows@;
        let item = Row {
            id: entry.id,
            path: entry.path.clone(),
            name: entry.name.clone(),
            is_dir: entry.is_dir,
            depth,
            ignored: entry.is_ignored,
            expanded: open,
        };
        rows.push(item);
        assert(leaf_list(rows@) =~= leaf_list(old_rows).push(own));
        assert(leaf_list(rows@) =~= start + earlier.push(own));
        if open {
            push_children(tree, expanded, show_ignored, child, depth + 1, rows);
            proof {
                let more = tree_rows(
                    tree@,
                    expanded@,
                    show_ignored,
                    child as int,
                    sorted_children(tree@, child as int, show_ignored).len() as int,
                    depth + 1,
                );
                assert(leaf_list(rows@) =~= start + (earlier.push(own) + more));
            }
        }
        k += 1;
    }
}

/// The rows of a tree: what is in the root and in every open directory,
/// directories before files, names compared whatever their case.
pub fn rows(tree: &Vec<TreeEntry>, expanded: &BTreeSet<u64>, show_ignored: bool) -> (rows: Vec<Row>)
    ensures
        leaf_list(rows@) == all_rows(tree@, expanded@, show_ignored),
{
    let mut rows: Vec<Row> = Vec::new();
    assert(leaf_list(rows@) =~= Seq::<Leaf>::empty());
    if tree.len() > 0 {
        push_children(tree, expanded, show_ignored, 0, 0, &mut rows);
        proof {
            let all = all_rows(tree@, expanded@, show_ignored);
            assert(Seq::<Leaf>::empty() + all =~= all);
        }
    }
    rows
}

/// The first row of an entry.
pub open spec fn row_of(rows: Seq<Leaf>, id: u64) -> Option<int>
    decreases rows.len(),
{
    if rows.len() == 0 {
        None
    } else {
        match row_of(rows.drop_last(), id) {
            Some(index) => Some(index),
            None => if rows.last().id == id {
                Some(rows.len() - 1)
            } else {
                None
            },
        }
    }
}

/// The row of the selection: of the entry that is selected, or the first one.
pub open spec fn selected_leaf(rows: Seq<Leaf>, selected: Option<u64>) -> Option<int> {
    let own = match selected {
        Some(id) => row_of(rows, id),
        None => None,
    };
    match own {
        Some(index) => Some(index),
        None => if rows.len() == 0 {
            None
        } else {
            Some(0)
        },
    }
}

/// The last row before an index at some depth.
pub open spec fn last_at(rows: Seq<Leaf>, to: int, depth: int) -> Option<int>
    decreases to,
{
    if to <= 0 {
        None
    } else if rows[to - 1].depth == depth {
        Some(to - 1)
    } else {
        last_at(rows, to - 1, depth)
    }
}

/// The nearest row above one level up.
pub open spec fn parent_leaf(rows: Seq<Leaf>, index: int) -> Option<int> {
    if rows[index].depth <= 0 {
        None
    } else {
        last_at(rows, index, rows[index].depth - 1)
    }
}

/// The nearest row above `index` one level up.
pub fn parent_index(rows: &Vec<Row>, index: usize) -> (parent: Option<usize>)
    requires
        index < rows@.len(),
    ensures
        match parent {
            Some(parent) => parent < index && parent_leaf(leaf_list(rows@), index as int) == Some(
                parent as int,
            ),
            None => parent_leaf(leaf_list(rows@), index as int) is None,
        },
{
    let ghost all = leaf_list(rows@);
    assert(all[index as int] == rows@[index as int]@);
    if rows[index].depth == 0 {
        return None;
    }
    let depth: usize = rows[index].depth - 1;
    let mut i: usize = index;
    while i > 0
        invariant
            i <= index < rows@.len(),
            all == leaf_list(rows@),
            parent_leaf(all, index as int) == last_at(all, i as int, depth as int),
        decreases i,
    {
        assert(all[i - 1] == rows@[i - 1]@);
        if rows[i - 1].depth == depth {
            return Some(i - 1);
        }
        i -= 1;
    }
    None
}

/// The first entry with a path.
pub open spec fn entry_at(tree: Seq<TreeEntry>, path: Seq<char>) -> Option<int>
    decreases tree.len(),
{
    if tree.len() == 0 {
        None
    } else {
        match entry_at(tree.drop_last(), path) {
            Some(index) => Some(index),
            None => if parts(tree.last().path@) == parts(path) {
                Some(tree.len() - 1)
            } else {
                None
            },
        }
    }
}

/// The directories that an entry is in.
pub open spec fn ancestors(tree: Seq<TreeEntry>, index: int) -> Set<u64>
    decreases index,
{
    if index <= 0 || tree[index].parent >= index {
        Set::empty()
    } else {
        let parent = tree[index].parent as int;
        ancestors(tree, parent).insert(tree[parent].id)
    }
}

/// What the panel keeps.
pub struct Browser {
    pub expanded: Set<u64>,
    pub selected: Option<u64>,
    pub show_ignored: bool,
    /// The first row that the last frame showed.
    pub first_row: int,
}

impl Browser {
    /// The rows of a tree.
    pub open spec fn rows(self, tree: Seq<TreeEntry>) -> Seq<Leaf> {
        all_rows(tree, self.expanded, self.show_ignored)
    }

    /// With the entry of a row selected.
    pub open spec fn choosing(self, rows: Seq<Leaf>, index: Option<int>) -> Browser {
        match index {
            Some(index) => if 0 <= index < rows.len() {
                Browser { selected: Some(rows[index].id), ..self }
            } else {
                self
            },
            None => self,
        }
    }

    /// With the selection on a row that there is.
    pub open spec fn settled(self, rows: Seq<Leaf>) -> Browser {
        self.choosing(rows, selected_leaf(rows, self.selected))
    }

    /// With an entry selected, the directories that it is in open, and ignored
    /// entries shown if it is one.
    pub open spec fn revealed(self, tree: Seq<TreeEntry>, index: int) -> Browser {
        Browser {
            expanded: self.expanded.union(ancestors(tree, index)),
            selected: Some(tree[index].id),
            show_ignored: self.show_ignored || tree[index].is_ignored,
            ..self
        }
    }

    /// With the entry of a path revealed, if there is one.
    pub open spec fn revealing(self, tree: Seq<TreeEntry>, path: Option<Seq<char>>) -> Browser {
        match path {
            Some(path) => match entry_at(tree, path) {
                Some(index) => self.revealed(tree, index),
                None => self,
            },
            None => self,
        }
    }

    /// After a command over some rows, the selection being at an index.
    pub open spec fn moved(self, command: Command, rows: Seq<Leaf>, index: int) -> Browser {
        let own = rows[index];
        match command {
            Command::PanelSelectNext => self.choosing(rows, Some(index + 1)),
            Command::PanelSelectPrevious => self.choosing(rows, Some(index - 1)),
            Command::PanelExpand => if own.is_dir && !own.expanded {
                Browser { expanded: self.expanded.insert(own.id), ..self }
            } else {
                self.choosing(rows, Some(index + 1))
            },
            Command::PanelCollapse => if own.expanded {
                Browser { expanded: self.expanded.remove(own.id), ..self }
            } else {
                self.choosing(rows, parent_leaf(rows, index))
            },
            Command::PanelActivate => if !own.is_dir {
                self
            } else if self.expanded.contains(own.id) {
                Browser { expanded: self.expanded.remove(own.id), ..self }
            } else {
                Browser { expanded: self.expanded.insert(own.id), ..self }
            },
            _ => self,
        }
    }

    /// After a command over a tree, with the path of the active document.
    pub open spec fn after(
        self,
        command: Command,
        tree: Seq<TreeEntry>,
        active: Option<Seq<char>>,
    ) -> Browser {
        let rows = self.rows(tree);
        let settled = self.settled(rows);
        match command {
            Command::PanelRevealActive => settled.revealing(tree, active),
            Command::PanelToggleIgnored => Browser {
                show_ignored: !settled.show_ignored,
                ..settled
            },
            _ => match selected_leaf(rows, self.selected) {
                Some(index) => settled.moved(command, rows, index),
                None => settled,
            },
        }
    }

    /// The row that is selected.
    pub open spec fn leaf(self, tree: Seq<TreeEntry>) -> Option<Leaf> {
        let rows = self.rows(tree);
        match selected_leaf(rows, self.selected) {
            Some(index) => Some(rows[index]),
            None => None,
        }
    }
}

/// What is asked of the file system.
#[derive(Debug, PartialEq, Eq)]
pub enum Mutation {
    Create { path: String, is_directory: bool },
    Rename { entry: u64, path: String },
    Delete(u64),
}

/// The plain values of a [`Mutation`].
pub enum Change {
    Create { path: Seq<char>, is_directory: bool },
    Rename { entry: u64, path: Seq<char> },
    Delete(u64),
}

impl View for Mutation {
    type V = Change;

    open spec fn view(&self) -> Change {
        match *self {
            Mutation::Create { path, is_directory } => Change::Create { path: path@, is_directory },
            Mutation::Rename { entry, path } => Change::Rename { entry, path: path@ },
            Mutation::Delete(entry) => Change::Delete(entry),
        }
    }
}

/// Something that is asked of the file system, what is said of it, and the
/// path to reveal once it is done.
#[derive(Debug, PartialEq, Eq)]
pub struct MutationRequest {
    pub description: String,
    pub reveal: Option<String>,
    pub mutation: Mutation,
}

/// The plain values of a [`MutationRequest`].
pub struct Errand {
    pub description: Seq<char>,
    pub reveal: Option<Seq<char>>,
    pub mutation: Change,
}

/// The plain values of a request that may be there.
pub open spec fn errand(request: Option<MutationRequest>) -> Option<Errand> {
    match request {
        Some(request) => Some(
            Errand {
                description: request.description@,
                reveal: optional_text(request.reveal),
                mutation: request.mutation@,
            },
        ),
        None => None,
    }
}

/// What comes of a command.
#[derive(Debug)]
pub struct PanelStep {
    pub outcome: PanelOutcome,
    pub request: Option<MutationRequest>,
}

/// Something that was asked of the file system ended.
#[derive(Debug)]
pub enum ProjectPanelEvent {
    MutationFinished {
        description: String,
        /// The entry to reveal on success.
        reveal: Option<String>,
        result: Result<(), String>,
    },
}

/// Where a new entry goes: into the selected directory, the directory of the
/// selected file, or the root.
pub open spec fn new_directory(own: Option<Leaf>, root: Option<Seq<char>>) -> Option<Seq<char>> {
    match own {
        Some(own) => if own.is_dir {
            Some(own.path)
        } else {
            directory_of(own.path)
        },
        None => root,
    }
}

/// What a command shows.
pub open spec fn commanded(
    command: Command,
    confirmed: bool,
    own: Option<Leaf>,
    scene: Scene,
    key_hint: Seq<char>,
    found: bool,
    show_ignored: bool,
) -> Scene {
    match command {
        Command::PanelNewFile => match new_directory(own, scene.root) {
            Some(directory) => scene.showing(
                prompt_layer("New file"@, Seq::empty(), Purpose::PanelNewFile { directory }),
            ),
            None => scene.said("no directory selected"@),
        },
        Command::PanelNewDirectory => match new_directory(own, scene.root) {
            Some(directory) => scene.showing(
                prompt_layer(
                    "New directory"@,
                    Seq::empty(),
                    Purpose::PanelNewDirectory { directory },
                ),
            ),
            None => scene.said("no directory selected"@),
        },
        Command::PanelRename => match own {
            Some(own) => match directory_of(own.path) {
                Some(directory) => scene.showing(
                    prompt_layer(
                        "Rename"@,
                        own.name,
                        Purpose::PanelRename { entry: own.id, directory },
                    ),
                ),
                None => scene,
            },
            None => scene.said("nothing selected"@),
        },
        Command::PanelDelete => match own {
            Some(own) => if confirmed {
                scene
            } else {
                scene.pushed(
                    Layer::Confirm {
                        message: "delete "@ + own.name + "? press "@ + key_hint
                            + " again to confirm"@,
                        command: Command::PanelDelete,
                    },
                )
            },
            None => scene.said("nothing selected"@),
        },
        Command::PanelRevealActive => if found {
            scene
        } else {
            scene.said("the active tab has no file in the project"@)
        },
        Command::PanelToggleIgnored => scene.said(
            if show_ignored {
                "showing ignored entries"@
            } else {
                "hiding ignored entries"@
            },
        ),
        _ => scene,
    }
}

/// What a command asks of the file system.
pub open spec fn asked(command: Command, confirmed: bool, own: Option<Leaf>) -> Option<Errand> {
    if command == Command::PanelDelete && confirmed && own is Some {
        Some(
            Errand {
                description: "deleted "@ + own->0.name,
                reveal: None,
                mutation: Change::Delete(own->0.id),
            },
        )
    } else {
        None
    }
}

/// What a name in a prompt of the panel asks of the file system.
pub open spec fn named(target: Purpose, name: Seq<char>, root: Option<Seq<char>>) -> Option<Errand> {
    match target {
        Purpose::PanelNewFile { directory } => {
            let path = joined(directory, name);
            Some(
                Errand {
                    description: "created "@ + shown_path(path, root),
                    reveal: Some(path),
                    mutation: Change::Create { path, is_directory: false },
                },
            )
        },
        Purpose::PanelNewDirectory { directory } => {
            let path = joined(directory, name);
            Some(
                Errand {
                    description: "created "@ + shown_path(path, root),
                    reveal: Some(path),
                    mutation: Change::Create { path, is_directory: true },
                },
            )
        },
        Purpose::PanelRename { entry, directory } => {
            let path = joined(directory, name);
            Some(
                Errand {
                    description: "renamed to "@ + shown_path(path, root),
                    reveal: Some(path),
                    mutation: Change::Rename { entry, path },
                },
            )
        },
        _ => None,
    }
}

/// The row of an entry as it is drawn.
pub open spec fn leaf_row(own: Leaf) -> RowText {
    row(
        indent(own.depth) + (if !own.is_dir {
            "  "@
        } else if own.expanded {
            "\u{25be} "@
        } else {
            "\u{25b8} "@
        }) + own.name + (if own.ignored {
            " [ignored]"@
        } else {
            Seq::empty()
        }),
        !own.ignored,
    )
}

/// The rows as they are drawn.
pub open spec fn leaf_rows(rows: Seq<Leaf>) -> Seq<RowText> {
    Seq::new(rows.len(), |i: int| leaf_row(rows[i]))
}

/// The title of the panel.
pub open spec fn panel_title(root: Option<Seq<char>>, show_ignored: bool) -> Seq<char> {
    let name = match root {
        Some(root) => match name_of(parts(root)) {
            Some(name) => name,
            None => "Project"@,
        },
        None => "Project"@,
    };
    " "@ + name + (if show_ignored {
        " +ignored"@
    } else {
        Seq::empty()
    }) + " "@
}

/// The path of `path` as seen from the root of the project.
pub fn relative(ctx: &Ctx, path: &str) -> (text: String)
    ensures
        text@ == shown_path(path@, ctx@.root),
{
    show_path(path, &ctx.root)
}

fn find_row(rows: &Vec<Row>, selected: Option<u64>) -> (index: Option<usize>)
    ensures
        match index {
            Some(index) => index < rows@.len() && selected_leaf(leaf_list(rows@), selected) == Some(
                index as int,
            ),
            None => rows@.len() == 0 && selected_leaf(leaf_list(rows@), selected) is None,
        },
{
    let ghost all = leaf_list(rows@);
    if let Some(id) = selected {
        let mut i: usize = 0;
        let mut found: Option<usize> = None;
        assert(all.take(0) =~= Seq::<Leaf>::empty());
        while i < rows.len()
            invariant
                i <= rows@.len(),
                all == leaf_list(rows@),
                match found {
                    Some(index) => index < i && row_of(all.take(i as int), id) == Some(
                        index as int,
                    ),
                    None => row_of(all.take(i as int), id) is None,
                },
            decreases rows@.len() - i,
        {
            proof {
                assert(all.take(i + 1).drop_last() =~= all.take(i as int));
                assert(all.take(i + 1).last() == rows@[i as int]@);
            }
            if found.is_none() && rows[i].id == id {
                found = Some(i);
            }
            i += 1;
        }
        assert(all.take(i as int) =~= all);
        if found.is_some() {
            return found;
        }
    }
    if rows.len() == 0 {
        None
    } else {
        Some(0)
    }
}

fn find_path(tree: &Vec<TreeEntry>, path: &str) -> (index: Option<usize>)
    ensures
        match index {
            Some(index) => index < tree@.len() && entry_at(tree@, path@) == Some(index as int),
            None => entry_at(tree@, path@) is None,
        },
{
    let wanted = components(path);
    let mut i: usize = 0;
    let mut found: Option<usize> = None;
    assert(tree@.take(0) =~= Seq::<TreeEntry>::empty());
    while i < tree.len()
        invariant
            i <= tree@.len(),
            crate::paths::part_list(wanted@) == parts(path@),
            match found {
                Some(index) => index < i && entry_at(tree@.take(i as int), path@) == Some(
                    index as int,
                ),
                None => entry_at(tree@.take(i as int), path@) is None,
            },
        decreases tree@.len() - i,
    {
        proof {
            assert(tree@.take(i + 1).drop_last() =~= tree@.take(i as int));
            assert(tree@.take(i + 1).last() == tree@[i as int]);
        }
        if found.is_none() {
            let own = components(tree[i].path.as_str());
            if same_path(&own, &wanted) {
                found = Some(i);
            }
        }
        i += 1;
    }
    assert(tree@.take(i as int) =~= tree@);
    found
}

fn open_ancestors(expanded: &mut BTreeSet<u64>, tree: &Vec<TreeEntry>, index: usize)
    requires
        index < tree@.len(),
    ensures
        final(expanded)@ == old(expanded)@.union(ancestors(tree@, index as int)),
{
    let ghost start = expanded@;
    let ghost wanted = start.union(ancestors(tree@, index as int));
    let mut at: usize = index;
    while at > 0 && tree[at].parent < at
        invariant
            at <= index < tree@.len(),
            expanded@.union(ancestors(tree@, at as int)) == wanted,
        decreases at,
    {
        let ghost before = expanded@;
        let parent: usize = tree[at].parent;
        expanded.insert(tree[parent].id);
        assert(expanded@ =~= before.insert(tree@[parent as int].id));
        assert(expanded@.union(ancestors(tree@, parent as int)) =~= wanted);
        at = parent;
    }
    assert(expanded@ =~= wanted);
}

/// The panel of the files of the project.
#[derive(Debug)]
pub struct ProjectPanel {
    expanded: BTreeSet<u64>,
    selected: Option<u64>,
    show_ignored: bool,
    first_row: usize,
}

impl Default for ProjectPanel {
    fn default() -> (panel: Self)
        ensures
            panel.state() == (Browser {
                expanded: Set::empty(),
                selected: None,
                show_ignored: false,
                first_row: 0,
            }),
    {
        let expanded: BTreeSet<u64> = BTreeSet::new();
        assert(expanded@ =~= Set::<u64>::empty());
        ProjectPanel { expanded, selected: None, show_ignored: false, first_row: 0 }
    }
}

fn new_entry_directory(own: Option<&Row>, root: &Option<String>) -> (result: Option<String>)
    ensures
        optional_text(result) == new_directory(
            match own {
                Some(own) => Some(own@),
                None => None,
            },
            optional_text(*root),
        ),
{
    match own {
        Some(own) => if own.is_dir {
            Some(own.path.clone())
        } else {
            directory(own.path.as_str())
        },
        None => match root {
            Some(root) => Some(root.clone()),
            None => None,
        },
    }
}

impl ProjectPanel {
    pub closed spec fn state(&self) -> Browser {
        Browser {
            expanded: self.expanded@,
            selected: self.selected,
            show_ignored: self.show_ignored,
            first_row: self.first_row as int,
        }
    }

    fn select_within(&mut self, rows: &Vec<Row>) -> (index: Option<usize>)
        ensures
            final(self).state() == old(self).state().settled(leaf_list(rows@)),
            match index {
                Some(index) => index < rows@.len() && selected_leaf(
                    leaf_list(rows@),
                    old(self).state().selected,
                ) == Some(index as int),
                None => rows@.len() == 0 && selected_leaf(
                    leaf_list(rows@),
                    old(self).state().selected,
                ) is None,
            },
    {
        let index = find_row(rows, self.selected);
        if let Some(index) = index {
            assert(leaf_list(rows@)[index as int] == rows@[index as int]@);
            self.selected = Some(rows[index].id);
        }
        index
    }

    fn reveal_path(&mut self, tree: &Vec<TreeEntry>, path: &str) -> (found: bool)
        ensures
            found == (entry_at(tree@, path@) is Some),
            final(self).state() == old(self).state().revealing(tree@, Some(path@)),
    {
        match find_path(tree, path) {
            Some(index) => {
                open_ancestors(&mut self.expanded, tree, index);
                if tree[index].is_ignored {
                    self.show_ignored = true;
                }
                self.selected = Some(tree[index].id);
                true
            },
            None => false,
        }
    }

    /// Selects the file of the active document, opening the directories that
    /// it is in.
    pub fn reveal_active(&mut self, tree: &Vec<TreeEntry>, active: &Option<String>) -> (found: bool)
        ensures
            found == (active is Some && entry_at(tree@, active->0@) is Some),
            final(self).state() == old(self).state().revealing(tree@, optional_text(*active)),
    {
        match active {
            Some(path) => self.reveal_path(tree, path.as_str()),
            None => false,
        }
    }

    fn move_over(&mut self, command: Command, rows: &Vec<Row>, index: usize)
        requires
            index < rows@.len(),
            leaf_list(rows@)[index as int].expanded ==> old(self).state().expanded.contains(
                leaf_list(rows@)[index as int].id,
            ),
        ensures
            final(self).state() == old(self).state().moved(
                command,
                leaf_list(rows@),
                index as int,
            ),
    {
        let ghost all = leaf_list(rows@);
        let ghost before = self.expanded@;
        let total: usize = rows.len();
        let own = &rows[index];
        assert(all[index as int] == own@);
        match command {
            Command::PanelSelectNext => {
                if index < total - 1 {
                    assert(all[index + 1] == rows@[index + 1]@);
                    self.selected = Some(rows[index + 1].id);
                }
            },
            Command::PanelSelectPrevious => {
                if index > 0 {
                    assert(all[index - 1] == rows@[index - 1]@);
                    self.selected = Some(rows[index - 1].id);
                }
            },
            Command::PanelExpand => {
                if own.is_dir && !own.expanded {
                    self.expanded.insert(own.id);
                    assert(self.expanded@ =~= before.insert(own.id));
                } else if index < total - 1 {
                    assert(all[index + 1] == rows@[index + 1]@);
                    self.selected = Some(rows[index + 1].id);
                }
            },
            Command::PanelCollapse => {
                if own.expanded {
                    self.expanded.remove(&own.id);
                    assert(self.expanded@ =~= before.remove(own.id));
                } else if let Some(parent) = parent_index(rows, index) {
                    assert(all[parent as int] == rows@[parent as int]@);
                    self.selected = Some(rows[parent].id);
                }
            },
            Command::PanelActivate => {
                if own.is_dir {
                    if self.expanded.contains(&own.id) {
                        self.expanded.remove(&own.id);
                        assert(self.expanded@ =~= before.remove(own.id));
                    } else {
                        self.expanded.insert(own.id);
                        assert(self.expanded@ =~= before.insert(own.id));
                    }
                }
            },
            _ => {},
        }
    }

    /// Runs a command over the tree. `active` is the path of the active
    /// document, and `key_hint` the key that deletes.
    pub fn execute(
        &mut self,
        ctx: &mut Ctx,
        command: Command,
        confirmed: bool,
        tree: &Vec<TreeEntry>,
        active: &Option<String>,
        key_hint: &str,
    ) -> (step: PanelStep)
        ensures
            ({
                let before = old(self).state();
                let own = before.leaf(tree@);
                let after = before.after(command, tree@, optional_text(*active));
                &&& final(self).state() == after
                &&& final(ctx)@ == commanded(
                    command,
                    confirmed,
                    own,
                    old(ctx)@,
                    key_hint@,
                    active is Some && entry_at(tree@, active->0@) is Some,
                    after.show_ignored,
                )
                &&& step.outcome@ == if command == Command::PanelActivate && own is Some
                    && !own->0.is_dir {
                    Outcome::Open(own->0.path)
                } else {
                    Outcome::Consumed
                }
                &&& errand(step.request) == asked(command, confirmed, own)
            }),
    {
        let rows = rows(tree, &self.expanded, self.show_ignored);
        let ghost all = leaf_list(rows@);
        let ghost before = self.state();
        let index = self.select_within(&rows);
        let own: Option<&Row> = match index {
            Some(index) => {
                assert(all[index as int] == rows@[index as int]@);
                Some(&rows[index])
            },
            None => None,
        };
        proof {
            reveal_strlit("");
            assert(""@ =~= Seq::<char>::empty());
        }
        let mut outcome = PanelOutcome::Consumed;
        let mut request: Option<MutationRequest> = None;
        match command {
            Command::PanelSelectNext | Command::PanelSelectPrevious | Command::PanelExpand
            | Command::PanelCollapse | Command::PanelActivate => {
                if let Some(index) = index {
                    proof {
                        lemma_open_rows(
                            tree@,
                            before.expanded,
                            before.show_ignored,
                            0,
                            sorted_children(tree@, 0, before.show_ignored).len() as int,
                            0,
                        );
                    }
                    self.move_over(command, &rows, index);
                    if command == Command::PanelActivate && !rows[index].is_dir {
                        outcome = PanelOutcome::Open(rows[index].path.clone());
                    }
                }
            },
            Command::PanelNewFile => match new_entry_directory(own, &ctx.root) {
                Some(directory) => ctx.show(
                    prompt("New file", "", PromptTarget::PanelNewFile { directory }),
                ),
                None => ctx.say("no directory selected"),
            },
            Command::PanelNewDirectory => match new_entry_directory(own, &ctx.root) {
                Some(directory) => ctx.show(
                    prompt("New directory", "", PromptTarget::PanelNewDirectory { directory }),
                ),
                None => ctx.say("no directory selected"),
            },
            Command::PanelRename => match own {
                Some(own) => {
                    if let Some(directory) = directory(own.path.as_str()) {
                        ctx.show(
                            prompt(
                                "Rename",
                                own.name.as_str(),
                                PromptTarget::PanelRename { entry: own.id, directory },
                            ),
                        );
                    }
                },
                None => ctx.say("nothing selected"),
            },
            Command::PanelDelete => match own {
                Some(own) => {
                    if confirmed {
                        let mut description = "deleted ".to_string();
                        description.append(own.name.as_str());
                        request = Some(
                            MutationRequest {
                                description,
                                reveal: None,
                                mutation: Mutation::Delete(own.id),
                            },
                        );
                    } else {
                        let mut message = "delete ".to_string();
                        message.append(own.name.as_str());
                        message.append("? press ");
                        message.append(key_hint);
                        message.append(" again to confirm");
                        ctx.push(Overlay::Confirm { message, command: Command::PanelDelete });
                    }
                },
                None => ctx.say("nothing selected"),
            },
            Command::PanelRevealActive => {
                if !self.reveal_active(tree, active) {
                    ctx.say("the active tab has no file in the project");
                }
            },
            Command::PanelToggleIgnored => {
                self.show_ignored = !self.show_ignored;
                if self.show_ignored {
                    ctx.say("showing ignored entries");
                } else {
                    ctx.say("hiding ignored entries");
                }
            },
            _ => {},
        }
        PanelStep { outcome, request }
    }

    /// A prompt of this panel was submitted.
    pub fn submit(&mut self, ctx: &mut Ctx, target: &PromptTarget, text: &str) -> (request: Option<
        MutationRequest,
    >)
        ensures
            final(self).state() == old(self).state(),
            ({
                let name = trimmed(text@);
                let wanted = named(target@, name, old(ctx)@.root);
                if name.len() == 0 || absolute(name) {
                    request is None && final(ctx)@ == old(ctx)@.remarked(
                        Some("enter a name relative to the directory"@),
                    )
                } else if wanted is None {
                    request is None && final(ctx)@ == old(ctx)@
                } else {
                    errand(request) == wanted && final(ctx)@ == old(ctx)@.popped()
                }
            }),
    {
        let name = trim(text);
        if name.as_str().unicode_len() == 0 || is_absolute(name.as_str()) {
            ctx.set_feedback("enter a name relative to the directory");
            return None;
        }
        let request = match target {
            PromptTarget::PanelNewFile { directory } => {
                let path = join(directory.as_str(), name.as_str());
                let mut description = "created ".to_string();
                description.append(relative(ctx, path.as_str()).as_str());
                MutationRequest {
                    description,
                    reveal: Some(path.clone()),
                    mutation: Mutation::Create { path, is_directory: false },
                }
            },
            PromptTarget::PanelNewDirectory { directory } => {
                let path = join(directory.as_str(), name.as_str());
                let mut description = "created ".to_string();
                description.append(relative(ctx, path.as_str()).as_str());
                MutationRequest {
                    description,
                    reveal: Some(path.clone()),
                    mutation: Mutation::Create { path, is_directory: true },
                }
            },
            PromptTarget::PanelRename { entry, directory } => {
                let path = join(directory.as_str(), name.as_str());
                let mut description = "renamed to ".to_string();
                description.append(relative(ctx, path.as_str()).as_str());
                MutationRequest {
                    description,
                    reveal: Some(path.clone()),
                    mutation: Mutation::Rename { entry: *entry, path },
                }
            },
            _ => {
                return None;
            },
        };
        ctx.pop();
        Some(request)
    }

    /// Something that was asked of the file system ended.
    pub fn update(&mut self, ctx: &mut Ctx, event: ProjectPanelEvent, tree: &Vec<TreeEntry>)
        ensures
            match event->result {
                Ok(_) => final(self).state() == old(self).state().revealing(
                    tree@,
                    optional_text(event->reveal),
                ) && final(ctx)@ == old(ctx)@.said(event->description@),
                Err(error) => final(self).state() == old(self).state() && final(ctx)@
                    == old(ctx)@.said(event->description@ + " failed: "@ + error@),
            },
    {
        let ProjectPanelEvent::MutationFinished { description, reveal, result } = event;
        match result {
            Ok(_) => {
                if let Some(path) = reveal {
                    let _ = self.reveal_path(tree, path.as_str());
                }
                ctx.say(description.as_str());
            },
            Err(error) => {
                let mut text = description;
                text.append(" failed: ");
                text.append(error.as_str());
                ctx.say(text.as_str());
            },
        }
    }

    /// The rows to draw, with the first of those that fit.
    pub fn view(&mut self, ctx: &Ctx, tree: &Vec<TreeEntry>, row_budget: usize) -> (snapshot:
        OverlaySnapshot)
        ensures
            ({
                let before = old(self).state();
                let rows = before.rows(tree@);
                let selected = selected_leaf(rows, before.selected);
                &&& final(self).state() == (Browser {
                    first_row: window_start_of(rows.len() as int, selected, row_budget as int),
                    ..before.settled(rows)
                })
                &&& snapshot@.title == panel_title(ctx@.root, before.show_ignored)
                &&& snapshot@.rows == leaf_rows(rows)
                &&& match snapshot@.selected {
                    Some(index) => selected == Some(index as int),
                    None => selected is None,
                }
            }),
    {
        let rows = rows(tree, &self.expanded, self.show_ignored);
        let ghost all = leaf_list(rows@);
        let selected = self.select_within(&rows);
        self.first_row = window_start(rows.len(), selected, row_budget);
        let mut title = " ".to_string();
        title.append(root_name(&ctx.root).as_str());
        let ghost front = title@;
        if self.show_ignored {
            title.append(" +ignored");
        } else {
            assert(front + Seq::<char>::empty() =~= title@);
        }
        title.append(" ");
        let mut list: Vec<OverlayRow> = Vec::new();
        let mut i: usize = 0;
        while i < rows.len()
            invariant
                i <= rows@.len(),
                all == leaf_list(rows@),
                row_texts(list@) =~= leaf_rows(all).take(i as int),
            decreases rows@.len() - i,
        {
            assert(all[i as int] == rows@[i as int]@);
            let text = row_text(&rows[i]);
            let enabled = !rows[i].ignored;
            push_row(&mut list, text, enabled);
            assert(leaf_row(all[i as int]) == row(text@, enabled));
            i += 1;
        }
        assert(row_texts(list@) =~= leaf_rows(all));
        OverlaySnapshot { title, rows: list, selected }
    }

    /// A click on a row of the panel selects the entry there.
    pub fn click(&mut self, tree: &Vec<TreeEntry>, screen_row: usize)
        ensures
            final(self).state() == old(self).state().choosing(
                old(self).state().rows(tree@),
                Some(old(self).state().first_row + screen_row),
            ),
    {
        let rows = rows(tree, &self.expanded, self.show_ignored);
        let total: usize = rows.len();
        if self.first_row < total && screen_row < total - self.first_row {
            let index: usize = self.first_row + screen_row;
            assert(leaf_list(rows@)[index as int] == rows@[index as int]@);
            self.selected = Some(rows[index].id);
        }
    }
}

fn root_name(root: &Option<String>) -> (name: String)
    ensures
        name@ == match optional_text(*root) {
            Some(root) => match name_of(parts(root)) {
                Some(name) => name,
                None => "Project"@,
            },
            None => "Project"@,
        },
{
    match root {
        Some(root) => match file_name(&components(root.as_str())) {
            Some(name) => name,
            None => "Project".to_string(),
        },
        None => "Project".to_string(),
    }
}

fn row_text(item: &Row) -> (text: String)
    ensures
        text@ == leaf_row(item@).text,
{
    let mut text = indentation(item.depth);
    if !item.is_dir {
        text.append("  ");
    } else if item.expanded {
        text.append("\u{25be} ");
    } else {
        text.append("\u{25b8} ");
    }
    text.append(item.name.as_str());
    let ghost front = text@;
    if item.ignored {
        text.append(" [ignored]");
    } else {
        assert(front + Seq::<char>::empty() =~= text@);
    }
    text
}

proof fn lemma_open_rows(
    tree: Seq<TreeEntry>,
    expanded: Set<u64>,
    show_ignored: bool,
    directory: int,
    count: int,
    depth: int,
)
    ensures
        forall|i: int|
            0 <= i < tree_rows(tree, expanded, show_ignored, directory, count, depth).len()
                && (#[trigger] tree_rows(
                tree,
                expanded,
                show_ignored,
                directory,
                count,
                depth,
            )[i]).expanded ==> expanded.contains(
                tree_rows(tree, expanded, show_ignored, directory, count, depth)[i].id,
            ),
    decreases tree.len() - directory, count,
{
    if count > 0 {
        lemma_open_rows(tree, expanded, show_ignored, directory, count - 1, depth);
        let child = sorted_children(tree, directory, show_ignored)[count - 1];
        let before = tree_rows(tree, expanded, show_ignored, directory, count - 1, depth);
        let all = tree_rows(tree, expanded, show_ignored, directory, count, depth);
        let open = tree[child].is_dir && expanded.contains(tree[child].id) && directory < child
            < tree.len();
        let total = sorted_children(tree, child, show_ignored).len() as int;
        let more = tree_rows(tree, expanded, show_ignored, child, total, depth + 1);
        if open {
            lemma_open_rows(tree, expanded, show_ignored, child, total, depth + 1);
        }
        assert forall|i: int| 0 <= i < all.len() && (#[trigger] all[i]).expanded implies
            expanded.contains(all[i].id) by {
            if i < before.len() {
                assert(all[i] == before[i]);
            } else if i == before.len() {
                assert(all[i] == leaf(tree[child], depth, expanded));
            } else {
                assert(all[i] == more[i - before.len() - 1]);
            }
        }
    }
}

/// A directory that is opened and closed again leaves the panel as it was.
pub proof fn opening_and_closing_changes_nothing(browser: Browser, rows: Seq<Leaf>, index: int)
    requires
        0 <= index < rows.len(),
        rows[index].is_dir,
    ensures
        browser.moved(Command::PanelActivate, rows, index).moved(
            Command::PanelActivate,
            rows,
            index,
        ) == browser,
{
    let id = rows[index].id;
    if browser.expanded.contains(id) {
        assert(browser.expanded.remove(id).insert(id) =~= browser.expanded);
    } else {
        assert(browser.expanded.insert(id).remove(id) =~= browser.expanded);
    }
}

/// The selection is on one of the rows where there are any.
pub proof fn the_selection_is_listed(rows: Seq<Leaf>, selected: Option<u64>)
    ensures
        rows.len() > 0 ==> selected_leaf(rows, selected) is Some,
        selected_leaf(rows, selected) matches Some(index) ==> 0 <= index < rows.len(),
{
    if let Some(id) = selected {
        lemma_row_of(rows, id);
    }
}

proof fn lemma_row_of(rows: Seq<Leaf>, id: u64)
    ensures
        row_of(rows, id) matches Some(index) ==> 0 <= index < rows.len() && rows[index].id == id,
    decreases rows.len(),
{
    if rows.len() > 0 {
        lemma_row_of(rows.drop_last(), id);
    }
}

proof fn lemma_children_sorted(tree: Seq<TreeEntry>, directory: int, show_ignored: bool, child: int)
    requires
        children(tree, directory, show_ignored).contains(child),
    ensures
        sorted_children(tree, directory, show_ignored).contains(child),
{
    let list = children(tree, directory, show_ignored);
    let before = entry_order(tree, list);
    assert(orders(list.len() as int, before)) by {
        assert forall|i: int, j: int|
            0 <= i < list.len() && 0 <= j < list.len() && #[trigger] before(i, j) implies !before(
            j,
            i,
        ) by {
            lemma_precedes_strict(lowercase(tree[list[i]].name@), lowercase(tree[list[j]].name@));
        }
        assert forall|i: int, j: int, k: int|
            0 <= i < list.len() && 0 <= j < list.len() && 0 <= k < list.len() && !(
            #[trigger] before(i, j)) && !(#[trigger] before(j, k)) implies !before(i, k) by {
            let a = lowercase(tree[list[i]].name@);
            let b = lowercase(tree[list[j]].name@);
            let c = lowercase(tree[list[k]].name@);
            lemma_precedes_strict(a, b);
            lemma_precedes_strict(b, c);
            lemma_precedes_strict(a, c);
            if precedes(c, b) && precedes(b, a) {
                lemma_precedes_transitive(c, b, a);
            }
        }
    }
    the_order_exists(list.len() as int, before);
    let order = stable_order(list.len() as int, before);
    let n = choose|n: int| 0 <= n < list.len() && list[n] == child;
    assert(order.contains(n));
    let k = choose|k: int| 0 <= k < order.len() && order[k] == n;
    assert(sorted_children(tree, directory, show_ignored)[k] == child);
}

/// Whether an entry has a row.
pub open spec fn has_row(rows: Seq<Leaf>, id: u64) -> bool {
    exists|k: int| 0 <= k < rows.len() && (#[trigger] rows[k]).id == id
}

proof fn lemma_row_of_child(
    tree: Seq<TreeEntry>,
    expanded: Set<u64>,
    show_ignored: bool,
    directory: int,
    count: int,
    depth: int,
    place: int,
)
    requires
        0 <= place < count,
    ensures
        ({
            let child = sorted_children(tree, directory, show_ignored)[place];
            let rows = tree_rows(tree, expanded, show_ignored, directory, count, depth);
            let total = sorted_children(tree, child, show_ignored).len() as int;
            let more = tree_rows(tree, expanded, show_ignored, child, total, depth + 1);
            &&& has_row(rows, tree[child].id)
            &&& tree[child].is_dir && expanded.contains(tree[child].id) && directory < child
                < tree.len() ==> forall|id: u64| #[trigger]
                has_row(more, id) ==> has_row(rows, id)
        }),
    decreases count,
{
    let child = sorted_children(tree, directory, show_ignored)[place];
    let rows = tree_rows(tree, expanded, show_ignored, directory, count, depth);
    let before = tree_rows(tree, expanded, show_ignored, directory, count - 1, depth);
    let total = sorted_children(tree, child, show_ignored).len() as int;
    let more = tree_rows(tree, expanded, show_ignored, child, total, depth + 1);
    if place < count - 1 {
        lemma_row_of_child(tree, expanded, show_ignored, directory, count - 1, depth, place);
        assert forall|id: u64| #[trigger] has_row(before, id) implies has_row(rows, id) by {
            let k = choose|k: int| 0 <= k < before.len() && (#[trigger] before[k]).id == id;
            assert(rows[k] == before[k]);
        }
    } else {
        assert(rows[before.len() as int] == leaf(tree[child], depth, expanded));
        if tree[child].is_dir && expanded.contains(tree[child].id) && directory < child
            < tree.len() {
            assert forall|id: u64| #[trigger] has_row(more, id) implies has_row(rows, id) by {
                let k = choose|k: int| 0 <= k < more.len() && (#[trigger] more[k]).id == id;
                assert(rows[before.len() + 1 + k] == more[k]);
            }
        }
    }
}

/// Whether an entry comes from the root by directories, none of which is
/// ignored unless the entry is.
pub open spec fn rooted(tree: Seq<TreeEntry>, index: int) -> bool
    decreases index,
{
    index == 0 || {
        let parent = tree[index].parent as int;
        &&& 0 < index < tree.len()
        &&& parent < index
        &&& tree[parent].is_dir
        &&& tree[parent].is_ignored ==> tree[index].is_ignored
        &&& rooted(tree, parent)
    }
}

proof fn lemma_rooted_row(
    tree: Seq<TreeEntry>,
    expanded: Set<u64>,
    show_ignored: bool,
    index: int,
) -> (depth: int)
    requires
        0 < index < tree.len(),
        rooted(tree, index),
        show_ignored || !tree[index].is_ignored,
        ancestors(tree, index).subset_of(expanded),
    ensures
        has_row(all_rows(tree, expanded, show_ignored), tree[index].id),
        tree[index].is_dir && expanded.contains(tree[index].id) ==> forall|id: u64| #[trigger]
            has_row(
                tree_rows(
                    tree,
                    expanded,
                    show_ignored,
                    index,
                    sorted_children(tree, index, show_ignored).len() as int,
                    depth,
                ),
                id,
            ) ==> has_row(all_rows(tree, expanded, show_ignored), id),
    decreases index,
{
    let parent = tree[index].parent as int;
    let keep = listed_in(tree, parent, show_ignored);
    lemma_kept(0, tree.len() as int, keep);
    assert(keep(index));
    assert(children(tree, parent, show_ignored).contains(index));
    lemma_children_sorted(tree, parent, show_ignored, index);
    let sorted = sorted_children(tree, parent, show_ignored);
    let place = choose|k: int| 0 <= k < sorted.len() && sorted[k] == index;
    let count = sorted.len() as int;
    if parent == 0 {
        lemma_row_of_child(tree, expanded, show_ignored, 0, count, 0, place);
        1
    } else {
        assert(ancestors(tree, index).contains(tree[parent].id));
        assert(ancestors(tree, parent).subset_of(expanded)) by {
            assert forall|id: u64| #[trigger] ancestors(tree, parent).contains(id) implies
                expanded.contains(id) by {
                assert(ancestors(tree, index).contains(id));
            }
        }
        let depth = lemma_rooted_row(tree, expanded, show_ignored, parent);
        lemma_row_of_child(tree, expanded, show_ignored, parent, count, depth, place);
        let under = tree_rows(tree, expanded, show_ignored, parent, count, depth);
        assert(has_row(under, tree[index].id));
        depth + 1
    }
}

/// An entry that is revealed has a row, and is the one that is selected.
pub proof fn revealed_entries_are_listed(browser: Browser, tree: Seq<TreeEntry>, index: int)
    requires
        0 < index < tree.len(),
        rooted(tree, index),
    ensures
        ({
            let after = browser.revealed(tree, index);
            &&& after.selected == Some(tree[index].id)
            &&& has_row(after.rows(tree), tree[index].id)
        }),
{
    let after = browser.revealed(tree, index);
    let _ = lemma_rooted_row(tree, after.expanded, after.show_ignored, index);
}

} // verus!
