//! The files of a project as a tree that can be expanded, filtered, and
//! changed.

use std::collections::BTreeSet;

use ratatui::buffer::Buffer;
use vstd::prelude::*;
use vstd::string::*;

use crate::geometry::{
    above_zero, centered_start, centered_start_of, centered_window_shows_the_selection,
    coordinate, kept, least, lemma_kept, numbers, step_by, stepped, Position, Rect,
};
use crate::input::lowercase;
use crate::order::{ahead, sorted_indices, Ordered};
use crate::outline_panel::{indent, indentation};
use crate::paint::{
    add_modifiers, buffer_area, buffer_cells, drawn, no_parts, paint, plain_lines, plain_style, row_views,
    strokes, text_row, with_modifiers, Paint, Stroke, StyleParts, StyledRow, REVERSED,
};
use crate::paths::{
    absolute, beneath, components, directory, directory_of, file_name, host_parts, host_views, is_absolute,
    is_plain_piece, join, joined, lemma_part_strict, lemma_part_transitive, name_of, parent_path,
    parent_text, part_list, part_precedes, parts, parts_of, path_starts_with, plain_piece, portable,
    portable_path, portable_paths_keep_their_components, portable_text, same_components, same_path,
    stands_at, Component, HostPart, HostView, Part,
};
use crate::text::{
    byte_len, decimal, holds, holds_text, pieces, push_decimal, same_text, texts, utf8_len,
};

verus! {

broadcast use {vstd::std_specs::btree::group_btree_axioms, vstd::string::group_string_axioms};

pub const MAX_PANEL_ENTRIES: usize = 1_000_000;

pub const MAX_FILTER_BYTES: usize = 4_096;

/// The identity of a file or directory of the project.
#[derive(Clone, Copy, Debug, PartialEq, Eq, PartialOrd, Ord, Hash, Structural)]
pub struct ProjectEntryId(pub u64);

#[derive(Clone, Copy, Debug, PartialEq, Eq, Structural)]
pub enum PanelEntryKind {
    Directory,
    File,
}

/// A file or directory, with its path from the root of the project.
#[derive(Debug, PartialEq, Eq)]
pub struct PanelEntry {
    pub id: ProjectEntryId,
    pub path: String,
    pub kind: PanelEntryKind,
    pub ignored: bool,
    pub hidden: bool,
    pub external: bool,
    pub private: bool,
    pub fifo: bool,
}

/// The plain values of a [`PanelEntry`].
pub struct Item {
    pub id: u64,
    pub path: Seq<char>,
    pub directory: bool,
    pub ignored: bool,
    pub hidden: bool,
    pub external: bool,
    pub private: bool,
    pub fifo: bool,
}

impl View for PanelEntry {
    type V = Item;

    open spec fn view(&self) -> Item {
        Item {
            id: self.id.0,
            path: self.path@,
            directory: self.kind == PanelEntryKind::Directory,
            ignored: self.ignored,
            hidden: self.hidden,
            external: self.external,
            private: self.private,
            fifo: self.fifo,
        }
    }
}

impl Clone for PanelEntry {
    fn clone(&self) -> (copy: Self)
        ensures
            copy@ == self@,
    {
        PanelEntry {
            id: self.id,
            path: self.path.clone(),
            kind: self.kind,
            ignored: self.ignored,
            hidden: self.hidden,
            external: self.external,
            private: self.private,
            fifo: self.fifo,
        }
    }
}

impl PanelEntry {
    pub fn is_directory(&self) -> (result: bool)
        ensures
            result == self@.directory,
    {
        match self.kind {
            PanelEntryKind::Directory => true,
            PanelEntryKind::File => false,
        }
    }

    /// Whether the entry is a file or directory of the project itself.
    pub fn openable(&self) -> (result: bool)
        ensures
            result == (!self@.fifo && !self@.external),
    {
        !self.fifo && !self.external
    }
}

/// The items that a list of entries holds.
pub open spec fn items_of(list: Seq<PanelEntry>) -> Seq<Item> {
    Seq::new(list.len(), |i: int| list[i]@)
}

/// The files of a project at one moment.
#[derive(Clone, Debug, PartialEq, Eq)]
pub struct PanelSnapshot {
    pub generation: u64,
    pub entries: Vec<PanelEntry>,
}

/// Why a snapshot, a request or a change is refused.
#[derive(Clone, Debug, PartialEq, Eq)]
pub enum PanelError {
    InitialSnapshotIsStale,
    EntryCount,
    PathIsAbsolute,
    PathIsEmpty,
    OddComponent,
    DuplicateId,
    DuplicatePath,
    RootIsNoDirectory,
    RootCount,
    NoParent(String),
    ParentIsNoDirectory,
    FilterTooLarge,
    UnknownEntry(ProjectEntryId),
    FileCannotExpand,
    HiddenEntry,
    NotIndexed(String),
    Untrusted,
    MetadataPath,
    MissingSource(String),
    OddSource,
    TargetExists,
    MissingTargetParent(String),
    TargetParentIsNoDirectory,
    TargetHasNoName,
    CaseFoldCollision,
    CreateNeedsOnlyATarget,
    MoveNeedsBoth,
    SourceIsTarget,
    DeleteNeedsOnlyASource,
    NoExistingAncestor,
    SourceDoesNotExist,
    EscapesThroughSymlink,
    Escapes,
    SourceIsSymlink,
    SourceIsSpecial,
    LocalTargetExists,
    LocalParentIsNoDirectory,
    LocalTargetHasNoName,
    LocalCaseFoldCollision,
}

/// The plain values of a [`PanelError`].
pub enum PanelFault {
    InitialSnapshotIsStale,
    EntryCount,
    PathIsAbsolute,
    PathIsEmpty,
    OddComponent,
    DuplicateId,
    DuplicatePath,
    RootIsNoDirectory,
    RootCount,
    NoParent(Seq<char>),
    ParentIsNoDirectory,
    FilterTooLarge,
    UnknownEntry(u64),
    FileCannotExpand,
    HiddenEntry,
    NotIndexed(Seq<char>),
    Untrusted,
    MetadataPath,
    MissingSource(Seq<char>),
    OddSource,
    TargetExists,
    MissingTargetParent(Seq<char>),
    TargetParentIsNoDirectory,
    TargetHasNoName,
    CaseFoldCollision,
    CreateNeedsOnlyATarget,
    MoveNeedsBoth,
    SourceIsTarget,
    DeleteNeedsOnlyASource,
    NoExistingAncestor,
    SourceDoesNotExist,
    EscapesThroughSymlink,
    Escapes,
    SourceIsSymlink,
    SourceIsSpecial,
    LocalTargetExists,
    LocalParentIsNoDirectory,
    LocalTargetHasNoName,
    LocalCaseFoldCollision,
}

impl View for PanelError {
    type V = PanelFault;

    open spec fn view(&self) -> PanelFault {
        match *self {
            PanelError::InitialSnapshotIsStale => PanelFault::InitialSnapshotIsStale,
            PanelError::EntryCount => PanelFault::EntryCount,
            PanelError::PathIsAbsolute => PanelFault::PathIsAbsolute,
            PanelError::PathIsEmpty => PanelFault::PathIsEmpty,
            PanelError::OddComponent => PanelFault::OddComponent,
            PanelError::DuplicateId => PanelFault::DuplicateId,
            PanelError::DuplicatePath => PanelFault::DuplicatePath,
            PanelError::RootIsNoDirectory => PanelFault::RootIsNoDirectory,
            PanelError::RootCount => PanelFault::RootCount,
            PanelError::NoParent(path) => PanelFault::NoParent(path@),
            PanelError::ParentIsNoDirectory => PanelFault::ParentIsNoDirectory,
            PanelError::FilterTooLarge => PanelFault::FilterTooLarge,
            PanelError::UnknownEntry(id) => PanelFault::UnknownEntry(id.0),
            PanelError::FileCannotExpand => PanelFault::FileCannotExpand,
            PanelError::HiddenEntry => PanelFault::HiddenEntry,
            PanelError::NotIndexed(path) => PanelFault::NotIndexed(path@),
            PanelError::Untrusted => PanelFault::Untrusted,
            PanelError::MetadataPath => PanelFault::MetadataPath,
            PanelError::MissingSource(path) => PanelFault::MissingSource(path@),
            PanelError::OddSource => PanelFault::OddSource,
            PanelError::TargetExists => PanelFault::TargetExists,
            PanelError::MissingTargetParent(path) => PanelFault::MissingTargetParent(path@),
            PanelError::TargetParentIsNoDirectory => PanelFault::TargetParentIsNoDirectory,
            PanelError::TargetHasNoName => PanelFault::TargetHasNoName,
            PanelError::CaseFoldCollision => PanelFault::CaseFoldCollision,
            PanelError::CreateNeedsOnlyATarget => PanelFault::CreateNeedsOnlyATarget,
            PanelError::MoveNeedsBoth => PanelFault::MoveNeedsBoth,
            PanelError::SourceIsTarget => PanelFault::SourceIsTarget,
            PanelError::DeleteNeedsOnlyASource => PanelFault::DeleteNeedsOnlyASource,
            PanelError::NoExistingAncestor => PanelFault::NoExistingAncestor,
            PanelError::SourceDoesNotExist => PanelFault::SourceDoesNotExist,
            PanelError::EscapesThroughSymlink => PanelFault::EscapesThroughSymlink,
            PanelError::Escapes => PanelFault::Escapes,
            PanelError::SourceIsSymlink => PanelFault::SourceIsSymlink,
            PanelError::SourceIsSpecial => PanelFault::SourceIsSpecial,
            PanelError::LocalTargetExists => PanelFault::LocalTargetExists,
            PanelError::LocalParentIsNoDirectory => PanelFault::LocalParentIsNoDirectory,
            PanelError::LocalTargetHasNoName => PanelFault::LocalTargetHasNoName,
            PanelError::LocalCaseFoldCollision => PanelFault::LocalCaseFoldCollision,
        }
    }
}

/// The fault of a result, if it has one.
pub open spec fn refusal<T>(result: Result<T, PanelError>) -> Option<PanelFault> {
    match result {
        Ok(_) => None,
        Err(error) => Some(error@),
    }
}

/// What is wrong with the path of an entry.
pub open spec fn path_fault(path: Seq<char>, allow_empty: bool) -> Option<PanelFault> {
    if absolute(path) {
        Some(PanelFault::PathIsAbsolute)
    } else if path.len() == 0 && !allow_empty {
        Some(PanelFault::PathIsEmpty)
    } else if exists|k: int|
        0 <= k < parts(path).len() && !plain_part(#[trigger] parts(path)[k], allow_empty) {
        Some(PanelFault::OddComponent)
    } else {
        None
    }
}

/// Whether a component may stand in the path of an entry.
pub open spec fn plain_part(part: Part, allow_current: bool) -> bool {
    part is Normal || allow_current && part is Current
}

fn validate_components(path: &str, list: &Vec<Component>, allow_empty: bool) -> (result: Result<
    (),
    PanelError,
>)
    requires
        part_list(list@) == parts(path@),
    ensures
        refusal(result) == path_fault(path@, allow_empty),
{
    if is_absolute(path) {
        return Err(PanelError::PathIsAbsolute);
    }
    if !allow_empty && path.unicode_len() == 0 {
        return Err(PanelError::PathIsEmpty);
    }
    let ghost all = parts(path@);
    let mut k: usize = 0;
    while k < list.len()
        invariant
            k <= list@.len(),
            part_list(list@) == all,
            all == parts(path@),
            !absolute(path@),
            path@.len() > 0 || allow_empty,
            forall|n: int| 0 <= n < k ==> plain_part(#[trigger] all[n], allow_empty),
        decreases list@.len() - k,
    {
        assert(all[k as int] == list@[k as int]@);
        let plain = match &list[k] {
            Component::Normal(_) => true,
            Component::CurDir => allow_empty,
            _ => false,
        };
        if !plain {
            return Err(PanelError::OddComponent);
        }
        k += 1;
    }
    Ok(())
}

/// Whether the path may be that of an entry.
pub fn validate_relative_path(path: &str, allow_empty: bool) -> (result: Result<(), PanelError>)
    ensures
        refusal(result) == path_fault(path@, allow_empty),
{
    let list = components(path);
    validate_components(path, &list, allow_empty)
}

/// Whether a component of the host may stand in the path of an entry.
pub open spec fn plain_host_part(part: HostView, index: int, allow_current: bool) -> bool {
    match part {
        HostView::Name(name) => plain_piece(name),
        HostView::Current => allow_current && index == 0,
        _ => false,
    }
}

/// What is wrong with the path of an entry, as the host splits it.
pub open spec fn host_path_fault(
    list: Seq<HostView>,
    absolute: bool,
    allow_empty: bool,
) -> Option<PanelFault> {
    if absolute {
        Some(PanelFault::PathIsAbsolute)
    } else if list.len() == 0 && !allow_empty {
        Some(PanelFault::PathIsEmpty)
    } else if exists|k: int|
        0 <= k < list.len() && !plain_host_part(#[trigger] list[k], k, allow_empty) {
        Some(PanelFault::OddComponent)
    } else {
        None
    }
}

fn is_plain_host_part(part: &HostPart, index: usize, allow_current: bool) -> (result: bool)
    ensures
        result == plain_host_part(part@, index as int, allow_current),
{
    match part {
        HostPart::Name(name) => is_plain_piece(name.as_str()),
        HostPart::Current => allow_current && index == 0,
        _ => false,
    }
}

/// The path of an entry with slashes, of what the host takes a path apart into;
/// `absolute` tells whether the host takes it to start at a root.
pub fn relative_host_path(list: &Vec<HostPart>, absolute: bool, allow_empty: bool) -> (result:
    Result<String, PanelError>)
    ensures
        refusal(result) == host_path_fault(host_views(list@), absolute, allow_empty),
        result matches Ok(path) ==> path@ == portable_text(host_views(list@), false),
{
    if absolute {
        return Err(PanelError::PathIsAbsolute);
    }
    if !allow_empty && list.len() == 0 {
        return Err(PanelError::PathIsEmpty);
    }
    let ghost all = host_views(list@);
    let mut k: usize = 0;
    while k < list.len()
        invariant
            k <= list@.len(),
            all == host_views(list@),
            !absolute,
            all.len() > 0 || allow_empty,
            forall|n: int| 0 <= n < k ==> plain_host_part(#[trigger] all[n], n, allow_empty),
        decreases list@.len() - k,
    {
        assert(all[k as int] == list@[k as int]@);
        if !is_plain_host_part(&list[k], k, allow_empty) {
            return Err(PanelError::OddComponent);
        }
        k += 1;
    }
    assert(portable(all, false)) by {
        assert forall|n: int| 0 <= n < all.len() implies stands_at(
            #[trigger] all[n],
            n,
            false,
        ) by {
            assert(plain_host_part(all[n], n, allow_empty));
        }
    }
    match portable_path(list, false) {
        Some(path) => Ok(path),
        None => Err(PanelError::OddComponent),
    }
}

/// A path of the host that is taken is one of an entry with slashes too.
pub proof fn host_paths_are_entry_paths(list: Seq<HostView>, allow_empty: bool)
    requires
        host_path_fault(list, false, allow_empty) is None,
    ensures
        path_fault(portable_text(list, false), allow_empty) is None,
        parts(portable_text(list, false)) == host_parts(list),
{
    assert forall|n: int| 0 <= n < list.len() implies plain_host_part(
        #[trigger] list[n],
        n,
        allow_empty,
    ) && stands_at(list[n], n, false) by {}
    portable_paths_keep_their_components(list, false);
    lemma_plain_host_parts(list, allow_empty);
    let text = portable_text(list, false);
    if text.len() == 0 {
        assert(pieces(text, '/') =~= seq![text]);
        assert(parts_of(pieces(text, '/').drop_last()) =~= Seq::<Part>::empty());
        assert(parts(text).len() == 0);
    }
}

proof fn lemma_plain_host_parts(list: Seq<HostView>, allow_empty: bool)
    requires
        forall|n: int| 0 <= n < list.len() ==> plain_host_part(#[trigger] list[n], n, allow_empty),
    ensures
        host_parts(list).len() == list.len(),
        forall|n: int|
            0 <= n < list.len() ==> plain_part(#[trigger] host_parts(list)[n], allow_empty),
    decreases list.len(),
{
    if list.len() > 0 {
        let front = list.drop_last();
        assert forall|n: int| 0 <= n < front.len() implies plain_host_part(
            #[trigger] front[n],
            n,
            allow_empty,
        ) by {
            assert(front[n] == list[n]);
        }
        lemma_plain_host_parts(front, allow_empty);
        assert(plain_host_part(list[list.len() - 1], list.len() - 1, allow_empty));
    }
}

/// A component of a path, and whether it names a file.
pub struct Level {
    pub rank: int,
    pub part: Part,
}

/// The components of a path as a place in the tree: directories come before
/// files.
pub open spec fn levels(path: Seq<Part>, directory: bool) -> Seq<Level> {
    Seq::new(
        path.len(),
        |i: int|
            Level {
                rank: if i == path.len() - 1 && !directory {
                    1
                } else {
                    0
                },
                part: path[i],
            },
    )
}

pub open spec fn level_precedes(a: Level, b: Level) -> bool {
    a.rank < b.rank || a.rank == b.rank && part_precedes(a.part, b.part)
}

/// Whether a place in the tree comes before another: a directory before what
/// it holds, and what a directory holds by kind and name.
pub open spec fn levels_precede(a: Seq<Level>, b: Seq<Level>) -> bool
    decreases a.len(),
{
    if b.len() == 0 {
        false
    } else if a.len() == 0 {
        true
    } else if a[0] == b[0] {
        levels_precede(a.drop_first(), b.drop_first())
    } else {
        level_precedes(a[0], b[0])
    }
}

pub proof fn lemma_level_strict(a: Level, b: Level)
    ensures
        !(level_precedes(a, b) && level_precedes(b, a)),
        !level_precedes(a, a),
        a != b ==> level_precedes(a, b) || level_precedes(b, a),
{
    lemma_part_strict(a.part, b.part);
}

pub proof fn lemma_levels_strict(a: Seq<Level>, b: Seq<Level>)
    ensures
        !(levels_precede(a, b) && levels_precede(b, a)),
        !levels_precede(a, a),
        a != b ==> levels_precede(a, b) || levels_precede(b, a),
    decreases a.len() + b.len(),
{
    if a.len() > 0 && b.len() > 0 {
        lemma_levels_strict(a.drop_first(), b.drop_first());
        lemma_level_strict(a[0], b[0]);
        if a != b && a[0] == b[0] && a.drop_first() == b.drop_first() {
            assert(a =~= seq![a[0]] + a.drop_first());
            assert(b =~= seq![b[0]] + b.drop_first());
        }
    } else if a.len() > 0 {
        lemma_levels_strict(a.drop_first(), b);
    } else if b.len() == 0 {
        assert(a =~= b);
    }
}

pub proof fn lemma_levels_transitive(a: Seq<Level>, b: Seq<Level>, c: Seq<Level>)
    requires
        levels_precede(a, b),
        levels_precede(b, c),
    ensures
        levels_precede(a, c),
    decreases a.len(),
{
    if a.len() > 0 {
        if a[0] == b[0] && b[0] == c[0] {
            lemma_levels_transitive(a.drop_first(), b.drop_first(), c.drop_first());
        } else {
            lemma_level_strict(a[0], b[0]);
            lemma_level_strict(b[0], c[0]);
            lemma_level_strict(a[0], c[0]);
            if level_precedes(a[0], b[0]) && level_precedes(b[0], c[0]) {
                if a[0].rank == b[0].rank && b[0].rank == c[0].rank {
                    lemma_part_transitive(a[0].part, b[0].part, c[0].part);
                }
            }
        }
    }
}

/// A path comes before those that it leads to.
proof fn lemma_prefix_precedes(a: Seq<Level>, b: Seq<Level>)
    requires
        a.len() < b.len(),
        a == b.take(a.len() as int),
    ensures
        levels_precede(a, b),
    decreases a.len(),
{
    if a.len() > 0 {
        assert(a[0] == b[0]);
        assert(a.drop_first() =~= b.drop_first().take(a.len() - 1));
        lemma_prefix_precedes(a.drop_first(), b.drop_first());
    }
}

/// Paths, and whether they name directories.
pub(crate) struct Places<'a> {
    pub(crate) keys: &'a Vec<Vec<Component>>,
    pub(crate) directories: &'a Vec<bool>,
}

impl<'a> Places<'a> {
    spec fn place(&self, i: int) -> Seq<Level> {
        levels(part_list(self.keys@[i]@), self.directories@[i])
    }
}

impl<'a> Ordered for Places<'a> {
    closed spec fn count(&self) -> nat {
        least(self.keys@.len() as int, self.directories@.len() as int) as nat
    }

    closed spec fn before(&self, i: int, j: int) -> bool {
        levels_precede(self.place(i), self.place(j))
    }

    proof fn before_is_asymmetric(&self, i: int, j: int) {
        lemma_levels_strict(self.place(i), self.place(j));
    }

    proof fn after_is_transitive(&self, i: int, j: int, k: int) {
        let (a, b, c) = (self.place(i), self.place(j), self.place(k));
        if levels_precede(a, c) {
            lemma_levels_strict(a, b);
            lemma_levels_strict(b, c);
            lemma_levels_strict(a, c);
            if a != b && b != c {
                lemma_levels_transitive(c, b, a);
            }
        }
    }

    fn is_before(&self, i: usize, j: usize) -> (result: bool) {
        let left = &self.keys[i];
        let right = &self.keys[j];
        place_before(
            left,
            left.len(),
            self.directories[i],
            right,
            right.len(),
            self.directories[j],
        )
    }
}

/// Compares the places of two paths, or of what leads to them.
pub fn place_before(
    left: &Vec<Component>,
    left_count: usize,
    left_directory: bool,
    right: &Vec<Component>,
    right_count: usize,
    right_directory: bool,
) -> (result: bool)
    requires
        left_count <= left@.len(),
        right_count <= right@.len(),
    ensures
        result == levels_precede(
            levels(part_list(left@).take(left_count as int), left_directory),
            levels(part_list(right@).take(right_count as int), right_directory),
        ),
        left_count == left@.len() && right_count == right@.len() ==> result == levels_precede(
            levels(part_list(left@), left_directory),
            levels(part_list(right@), right_directory),
        ),
{
    let ghost a = levels(part_list(left@).take(left_count as int), left_directory);
    let ghost b = levels(part_list(right@).take(right_count as int), right_directory);
    proof {
        if left_count == left@.len() {
            assert(part_list(left@).take(left_count as int) =~= part_list(left@));
        }
        if right_count == right@.len() {
            assert(part_list(right@).take(right_count as int) =~= part_list(right@));
        }
        assert(a.skip(0) =~= a);
        assert(b.skip(0) =~= b);
    }
    let mut i: usize = 0;
    while i < left_count && i < right_count
        invariant
            i <= left_count <= left@.len(),
            i <= right_count <= right@.len(),
            a == levels(part_list(left@).take(left_count as int), left_directory),
            b == levels(part_list(right@).take(right_count as int), right_directory),
            left_count == left@.len() ==> part_list(left@).take(left_count as int) == part_list(
                left@,
            ),
            right_count == right@.len() ==> part_list(right@).take(right_count as int) == part_list(
                right@,
            ),
            levels_precede(a, b) == levels_precede(a.skip(i as int), b.skip(i as int)),
        decreases left_count - i,
    {
        let left_file = i + 1 == left_count && !left_directory;
        let right_file = i + 1 == right_count && !right_directory;
        proof {
            assert(a.skip(i as int)[0] == a[i as int]);
            assert(b.skip(i as int)[0] == b[i as int]);
            assert(a[i as int].part == left@[i as int]@);
            assert(b[i as int].part == right@[i as int]@);
            lemma_part_strict(left@[i as int]@, right@[i as int]@);
        }
        if left_file != right_file {
            return right_file;
        }
        if left[i].comes_before(&right[i]) {
            return true;
        }
        if right[i].comes_before(&left[i]) {
            return false;
        }
        proof {
            assert(a.skip(i as int).drop_first() =~= a.skip(i + 1));
            assert(b.skip(i as int).drop_first() =~= b.skip(i + 1));
        }
        i += 1;
    }
    right_count > i
}

/// Whether one of the items has the ID.
pub open spec fn has_id(list: Seq<Item>, id: u64) -> bool {
    exists|i: int| 0 <= i < list.len() && #[trigger] list[i].id == id
}

/// Whether an item has the path.
pub open spec fn at_path(item: Item, path: Seq<Part>) -> bool {
    parts(item.path) == path
}

/// Whether one of the items has the path.
pub open spec fn has_path(list: Seq<Item>, path: Seq<Part>) -> bool {
    exists|i: int| 0 <= i < list.len() && at_path(#[trigger] list[i], path)
}

/// Whether one of the items is a directory with the path.
pub open spec fn has_directory(list: Seq<Item>, path: Seq<Part>) -> bool {
    exists|i: int| 0 <= i < list.len() && at_path(#[trigger] list[i], path) && list[i].directory
}

/// What is wrong with the last item of a list, given those before it.
pub open spec fn last_fault(list: Seq<Item>) -> Option<PanelFault> {
    let last = list.last();
    let front = list.drop_last();
    if path_fault(last.path, true) is Some {
        path_fault(last.path, true)
    } else if has_id(front, last.id) {
        Some(PanelFault::DuplicateId)
    } else if has_path(front, parts(last.path)) {
        Some(PanelFault::DuplicatePath)
    } else if last.path.len() == 0 && !last.directory {
        Some(PanelFault::RootIsNoDirectory)
    } else {
        None
    }
}

/// The first thing that is wrong with the items by themselves.
pub open spec fn items_fault(list: Seq<Item>) -> Option<PanelFault>
    decreases list.len(),
{
    if list.len() == 0 {
        None
    } else if items_fault(list.drop_last()) is Some {
        items_fault(list.drop_last())
    } else {
        last_fault(list)
    }
}

/// Whether the root of the project is among the items.
pub open spec fn has_root(list: Seq<Item>) -> bool {
    exists|i: int| 0 <= i < list.len() && (#[trigger] list[i]).path.len() == 0
}

/// What is wrong with the place of an item.
pub open spec fn orphan_fault(list: Seq<Item>, i: int) -> Option<PanelFault> {
    let above = parts(list[i].path).drop_last();
    if list[i].path.len() == 0 {
        None
    } else if !has_path(list, above) {
        Some(PanelFault::NoParent(list[i].path))
    } else if !has_directory(list, above) {
        Some(PanelFault::ParentIsNoDirectory)
    } else {
        None
    }
}

/// Of the first items, the one with the lowest ID whose place is wrong.
pub open spec fn first_orphan(list: Seq<Item>, count: int) -> Option<int>
    decreases count,
{
    if count <= 0 {
        None
    } else {
        let before = first_orphan(list, count - 1);
        if orphan_fault(list, count - 1) is Some && (before is None || list[count - 1].id
            < list[before->0].id) {
            Some(count - 1)
        } else {
            before
        }
    }
}

/// The first thing that is wrong with a snapshot.
pub open spec fn snapshot_fault(list: Seq<Item>) -> Option<PanelFault> {
    if list.len() == 0 || list.len() > MAX_PANEL_ENTRIES {
        Some(PanelFault::EntryCount)
    } else if items_fault(list) is Some {
        items_fault(list)
    } else if !has_root(list) {
        Some(PanelFault::RootCount)
    } else {
        match first_orphan(list, list.len() as int) {
            Some(i) => orphan_fault(list, i),
            None => None,
        }
    }
}

proof fn lemma_fault_stays(list: Seq<Item>, count: int)
    requires
        0 <= count <= list.len(),
        items_fault(list.take(count)) is Some,
    ensures
        items_fault(list) == items_fault(list.take(count)),
    decreases list.len(),
{
    if count == list.len() {
        assert(list.take(count) =~= list);
    } else {
        assert(list.drop_last().take(count) =~= list.take(count));
        lemma_fault_stays(list.drop_last(), count);
    }
}

/// What holds of items with nothing wrong.
pub open spec fn distinct_items(list: Seq<Item>) -> bool {
    &&& forall|i: int|
        0 <= i < list.len() ==> path_fault((#[trigger] list[i]).path, true) is None
    &&& forall|i: int|
        0 <= i < list.len() && (#[trigger] list[i]).path.len() == 0 ==> list[i].directory
    &&& forall|i: int, j: int|
        0 <= i < j < list.len() ==> (#[trigger] list[i]).id != (#[trigger] list[j]).id
    &&& forall|i: int, j: int|
        0 <= i < j < list.len() ==> parts((#[trigger] list[i]).path) != parts(
            (#[trigger] list[j]).path,
        )
}

proof fn lemma_distinct(list: Seq<Item>)
    requires
        items_fault(list) is None,
    ensures
        distinct_items(list),
    decreases list.len(),
{
    if list.len() > 0 {
        let front = list.drop_last();
        lemma_distinct(front);
        let last = list.last();
        assert forall|i: int, j: int| 0 <= i < j < list.len() implies (#[trigger] list[i]).id != (
        #[trigger] list[j]).id && parts(list[i].path) != parts(list[j].path) by {
            assert(front[i] == list[i]);
            if j < front.len() {
                assert(front[j] == list[j]);
            } else {
                assert(!has_id(front, last.id));
                assert(!has_path(front, parts(last.path)));
                assert(front[i].id != last.id);
                assert(!at_path(front[i], parts(last.path)));
            }
        }
        assert forall|i: int| 0 <= i < list.len() implies path_fault(
            (#[trigger] list[i]).path,
            true,
        ) is None && (list[i].path.len() == 0 ==> list[i].directory) by {
            if i < front.len() {
                assert(front[i] == list[i]);
            }
        }
    }
}

/// The keys of the items are their paths.
spec fn keyed(keys: Seq<Vec<Component>>, list: Seq<Item>) -> bool {
    keys.len() == list.len() && forall|i: int|
        0 <= i < list.len() ==> part_list((#[trigger] keys[i])@) == parts(list[i].path)
}

proof fn lemma_levels_same(a: Seq<Part>, b: Seq<Part>, a_directory: bool, b_directory: bool)
    requires
        levels(a, a_directory) == levels(b, b_directory),
    ensures
        a == b,
{
    let left = levels(a, a_directory);
    let right = levels(b, b_directory);
    assert(a.len() == left.len() && b.len() == right.len());
    assert forall|i: int| 0 <= i < a.len() implies a[i] == b[i] by {
        assert(left[i].part == a[i]);
        assert(right[i].part == b[i]);
    }
    assert(a =~= b);
}

fn parse_paths(entries: &Vec<PanelEntry>) -> (keys: Vec<Vec<Component>>)
    ensures
        keyed(keys@, items_of(entries@)),
{
    let mut keys: Vec<Vec<Component>> = Vec::new();
    let mut i: usize = 0;
    while i < entries.len()
        invariant
            i <= entries@.len(),
            keys@.len() == i,
            forall|k: int|
                0 <= k < i ==> part_list((#[trigger] keys@[k])@) == parts(entries@[k].path@),
        decreases entries@.len() - i,
    {
        keys.push(components(entries[i].path.as_str()));
        i += 1;
    }
    keys
}

fn all_directories(count: usize) -> (flags: Vec<bool>)
    ensures
        flags@.len() == count,
        forall|k: int| 0 <= k < count ==> #[trigger] flags@[k],
{
    let mut flags: Vec<bool> = Vec::new();
    let mut i: usize = 0;
    while i < count
        invariant
            i <= count,
            flags@.len() == i,
            forall|k: int| 0 <= k < i ==> #[trigger] flags@[k],
        decreases count - i,
    {
        flags.push(true);
        i += 1;
    }
    flags
}

/// Paths sorted by name alone.
spec fn sorted_paths(keys: Seq<Vec<Component>>, order: Seq<usize>) -> bool {
    &&& order.len() == keys.len()
    &&& forall|p: int| 0 <= p < order.len() ==> #[trigger] order[p] < keys.len()
    &&& forall|n: usize| n < keys.len() ==> #[trigger] order.contains(n)
    &&& forall|p: int, q: int|
        0 <= p < q < order.len() ==> {
            let a = levels(part_list(keys[#[trigger] order[p] as int]@), true);
            let b = levels(part_list(keys[#[trigger] order[q] as int]@), true);
            levels_precede(a, b) || a == b && order[p] < order[q]
        }
}

fn sort_paths(keys: &Vec<Vec<Component>>) -> (order: Vec<usize>)
    ensures
        sorted_paths(keys@, order@),
{
    let directories = all_directories(keys.len());
    let places = Places { keys, directories: &directories };
    let order = sorted_indices(&places, keys.len());
    proof {
        assert forall|p: int, q: int| 0 <= p < q < order@.len() implies {
            let a = levels(part_list(keys@[#[trigger] order@[p] as int]@), true);
            let b = levels(part_list(keys@[#[trigger] order@[q] as int]@), true);
            levels_precede(a, b) || a == b && order@[p] < order@[q]
        } by {
            assert(ahead(places, order@[p] as int, order@[q] as int));
            assert(directories@[order@[p] as int] && directories@[order@[q] as int]);
            lemma_levels_strict(places.place(order@[p] as int), places.place(order@[q] as int));
        }
    }
    order
}

/// Which paths stand in the list before.
fn find_repeated(keys: &Vec<Vec<Component>>, order: &Vec<usize>) -> (flags: Vec<bool>)
    requires
        sorted_paths(keys@, order@),
    ensures
        flags@.len() == keys@.len(),
        forall|i: int|
            0 <= i < keys@.len() ==> #[trigger] flags@[i] == exists|j: int|
                0 <= j < i && part_list((#[trigger] keys@[j])@) == part_list(keys@[i]@),
{
    let mut flags = all_directories(keys.len());
    let mut p: usize = 0;
    while p < order.len()
        invariant
            p <= order@.len(),
            sorted_paths(keys@, order@),
            flags@.len() == keys@.len(),
            forall|q: int|
                0 <= q < p ==> flags@[#[trigger] order@[q] as int] == exists|j: int|
                    0 <= j < order@[q] && part_list((#[trigger] keys@[j])@) == part_list(
                        keys@[order@[q] as int]@,
                    ),
        decreases order@.len() - p,
    {
        let i: usize = order[p];
        let repeated = p > 0 && same_path(&keys[order[p - 1]], &keys[i]);
        proof {
            let key = part_list(keys@[i as int]@);
            if repeated {
                assert(order@[p - 1] < i) by {
                    lemma_levels_strict(
                        levels(key, true),
                        levels(part_list(keys@[order@[p - 1] as int]@), true),
                    );
                }
            }
            if exists|j: int| 0 <= j < i && part_list((#[trigger] keys@[j])@) == key {
                let j = choose|j: int| 0 <= j < i && part_list((#[trigger] keys@[j])@) == key;
                assert(order@.contains(j as usize));
                let q = choose|q: int| 0 <= q < order@.len() && order@[q] == j as usize;
                lemma_levels_strict(levels(key, true), levels(key, true));
                assert(q < p);
                if q < p - 1 {
                    let middle = levels(part_list(keys@[order@[p - 1] as int]@), true);
                    lemma_levels_strict(levels(key, true), middle);
                    assert(levels_precede(levels(key, true), middle) || levels(key, true) == middle);
                    assert(levels_precede(middle, levels(key, true)) || levels(key, true) == middle);
                    lemma_levels_same(
                        key,
                        part_list(keys@[order@[p - 1] as int]@),
                        true,
                        true,
                    );
                }
            }
            assert forall|q: int| 0 <= q < p implies #[trigger] order@[q] != i by {
                lemma_levels_strict(levels(key, true), levels(key, true));
            }
        }
        flags.set(i, repeated);
        p += 1;
    }
    proof {
        assert forall|i: int| 0 <= i < keys@.len() implies #[trigger] flags@[i] == exists|j: int|
            0 <= j < i && part_list((#[trigger] keys@[j])@) == part_list(keys@[i]@) by {
            assert(order@.contains(i as usize));
            let q = choose|q: int| 0 <= q < order@.len() && order@[q] == i as usize;
            assert(flags@[order@[q] as int] == flags@[i]);
        }
    }
    flags
}

/// Finds the path that leads to another.
fn find_path(keys: &Vec<Vec<Component>>, order: &Vec<usize>, query: &Vec<Component>, count: usize) -> (
    found: Option<usize>)
    requires
        sorted_paths(keys@, order@),
        count <= query@.len(),
    ensures
        match found {
            Some(i) => i < keys@.len() && part_list(keys@[i as int]@) == part_list(query@).take(
                count as int,
            ),
            None => forall|i: int|
                0 <= i < keys@.len() ==> part_list((#[trigger] keys@[i])@) != part_list(
                    query@,
                ).take(count as int),
        },
{
    let ghost wanted = part_list(query@).take(count as int);
    let ghost target = levels(wanted, true);
    let mut low: usize = 0;
    let mut high: usize = order.len();
    while low < high
        invariant
            low <= high <= order@.len(),
            sorted_paths(keys@, order@),
            count <= query@.len(),
            wanted == part_list(query@).take(count as int),
            target == levels(wanted, true),
            forall|p: int|
                0 <= p < low ==> levels_precede(
                    levels(part_list(keys@[#[trigger] order@[p] as int]@), true),
                    target,
                ),
            forall|p: int|
                high <= p < order@.len() ==> levels_precede(
                    target,
                    levels(part_list(keys@[#[trigger] order@[p] as int]@), true),
                ),
        decreases high - low,
    {
        let middle: usize = low + (high - low) / 2;
        let index: usize = order[middle];
        let key = &keys[index];
        let ghost here = levels(part_list(key@), true);
        assert(part_list(key@).take(key@.len() as int) =~= part_list(key@));
        proof {
            lemma_levels_strict(here, target);
        }
        if place_before(key, key.len(), true, query, count, true) {
            proof {
                assert forall|p: int| 0 <= p <= middle implies levels_precede(
                    levels(part_list(keys@[#[trigger] order@[p] as int]@), true),
                    target,
                ) by {
                    if p < middle {
                        let there = levels(part_list(keys@[order@[p] as int]@), true);
                        assert(order@[middle as int] == index);
                        if there != here {
                            lemma_levels_transitive(there, here, target);
                        }
                    }
                }
            }
            low = middle + 1;
        } else if place_before(query, count, true, key, key.len(), true) {
            proof {
                assert forall|p: int| middle <= p < order@.len() implies levels_precede(
                    target,
                    levels(part_list(keys@[#[trigger] order@[p] as int]@), true),
                ) by {
                    if p > middle {
                        let there = levels(part_list(keys@[order@[p] as int]@), true);
                        assert(order@[middle as int] == index);
                        if there != here {
                            lemma_levels_transitive(target, here, there);
                        }
                    }
                }
            }
            high = middle;
        } else {
            proof {
                lemma_levels_same(part_list(key@), wanted, true, true);
            }
            return Some(index);
        }
    }
    proof {
        assert forall|i: int| 0 <= i < keys@.len() implies part_list((#[trigger] keys@[i])@)
            != wanted by {
            assert(order@.contains(i as usize));
            let q = choose|q: int| 0 <= q < order@.len() && order@[q] == i as usize;
            lemma_levels_strict(target, target);
            if part_list(keys@[i]@) == wanted {
                assert(keys@[order@[q] as int] == keys@[i]);
            }
        }
    }
    None
}

/// The first thing that is wrong with the entries by themselves.
fn validate_entries(entries: &Vec<PanelEntry>, keys: &Vec<Vec<Component>>, repeated: &Vec<bool>) -> (
    result: Result<(), PanelError>)
    requires
        keyed(keys@, items_of(entries@)),
        repeated@.len() == entries@.len(),
        forall|i: int|
            0 <= i < keys@.len() ==> #[trigger] repeated@[i] == exists|j: int|
                0 <= j < i && part_list((#[trigger] keys@[j])@) == part_list(keys@[i]@),
    ensures
        refusal(result) == items_fault(items_of(entries@)),
{
    let ghost list = items_of(entries@);
    let ghost fault = items_fault(list);
    let mut ids: BTreeSet<u64> = BTreeSet::new();
    let mut i: usize = 0;
    assert(list.take(0) =~= Seq::<Item>::empty());
    while i < entries.len()
        invariant
            i <= entries@.len(),
            list == items_of(entries@),
            fault == items_fault(list),
            keyed(keys@, list),
            repeated@.len() == entries@.len(),
            forall|i: int|
                0 <= i < keys@.len() ==> #[trigger] repeated@[i] == exists|j: int|
                    0 <= j < i && part_list((#[trigger] keys@[j])@) == part_list(keys@[i]@),
            items_fault(list.take(i as int)) is None,
            forall|id: u64| ids@.contains(id) == has_id(list.take(i as int), id),
        decreases entries@.len() - i,
    {
        let entry = &entries[i];
        let ghost front = list.take(i as int);
        let ghost seen = list.take(i + 1);
        proof {
            assert(seen.drop_last() =~= front);
            assert(seen.last() == entry@);
            assert(list[i as int] == entry@);
            if last_fault(seen) is Some {
                lemma_fault_stays(list, i + 1);
            }
            assert forall|id: u64| has_id(seen, id) == (has_id(front, id) || id
                == entry.id.0) by {
                if has_id(front, id) {
                    let k = choose|k: int| 0 <= k < front.len() && #[trigger] front[k].id == id;
                    assert(seen[k].id == id);
                }
                if id == entry.id.0 {
                    assert(seen[i as int].id == id);
                }
                if has_id(seen, id) {
                    let k = choose|k: int| 0 <= k < seen.len() && #[trigger] seen[k].id == id;
                    if k < i {
                        assert(front[k].id == id);
                    }
                }
            }
            assert(repeated@[i as int] == has_path(front, parts(entry.path@))) by {
                let key = parts(entry.path@);
                assert(part_list(keys@[i as int]@) == key);
                if repeated@[i as int] {
                    let j = choose|j: int|
                        0 <= j < i && part_list((#[trigger] keys@[j])@) == part_list(
                            keys@[i as int]@,
                        );
                    assert(at_path(front[j], key));
                }
                if has_path(front, key) {
                    let j = choose|j: int| 0 <= j < front.len() && at_path(#[trigger] front[j], key);
                    assert(part_list(keys@[j]@) == key);
                }
            }
        }
        match validate_components(entry.path.as_str(), &keys[i], true) {
            Ok(()) => {},
            Err(error) => {
                return Err(error);
            },
        }
        if !ids.insert(entry.id.0) {
            return Err(PanelError::DuplicateId);
        }
        if repeated[i] {
            return Err(PanelError::DuplicatePath);
        }
        if entry.path.as_str().unicode_len() == 0 && !entry.is_directory() {
            return Err(PanelError::RootIsNoDirectory);
        }
        i += 1;
    }
    assert(list.take(i as int) =~= list);
    Ok(())
}

/// The place of an item in the tree.
pub open spec fn place_of(item: Item) -> Seq<Level> {
    levels(parts(item.path), item.directory)
}

/// Whether an item is the directory that holds another.
pub open spec fn is_parent(list: Seq<Item>, p: int, i: int) -> bool {
    0 <= p < i && list[p].directory && parts(list[p].path) == parts(list[i].path).drop_last()
}

/// The items of a project in the order in which they are shown: the root
/// first, each directory before what it holds, and directories before files.
pub open spec fn tree(list: Seq<Item>) -> bool {
    &&& list.len() > 0
    &&& list[0].path.len() == 0
    &&& distinct_items(list)
    &&& forall|i: int|
        0 < i < list.len() ==> parts((#[trigger] list[i]).path).len() > 0 && exists|p: int|
            #[trigger] is_parent(list, p, i)
    &&& forall|i: int, j: int|
        0 <= i < j < list.len() ==> levels_precede(
            place_of(#[trigger] list[i]),
            place_of(#[trigger] list[j]),
        )
}

/// Whether two lists hold the same items.
pub open spec fn same_items(a: Seq<Item>, b: Seq<Item>) -> bool {
    a.len() == b.len() && forall|item: Item| #[trigger] a.contains(item) == b.contains(item)
}

/// The entries of a project in the order of the tree, with their parents.
#[derive(Debug)]
pub struct FileTree {
    entries: Vec<PanelEntry>,
    keys: Vec<Vec<Component>>,
    parents: Vec<usize>,
}

impl View for FileTree {
    type V = Seq<Item>;

    closed spec fn view(&self) -> Seq<Item> {
        items_of(self.entries@)
    }
}

impl FileTree {
    #[verifier::type_invariant]
    spec fn well_formed(&self) -> bool {
        &&& tree(items_of(self.entries@))
        &&& keyed(self.keys@, items_of(self.entries@))
        &&& self.parents@.len() == self.entries@.len()
        &&& forall|i: int|
            0 < i < self.parents@.len() ==> is_parent(
                items_of(self.entries@),
                #[trigger] self.parents@[i] as int,
                i,
            )
    }
}

proof fn lemma_no_parts(path: Seq<char>)
    requires
        path_fault(path, true) is None,
    ensures
        path.len() == 0 ==> parts(path).len() == 0,
{
    if path.len() == 0 {
        reveal_with_fuel(crate::text::pieces, 1);
        reveal_with_fuel(crate::paths::parts_of, 2);
        let list = crate::text::pieces(path, '/');
        assert(list =~= seq![path]);
        assert(list.drop_last() =~= Seq::<Seq<char>>::empty());
    }
}

/// Which directory holds each entry: the place of its path in the list.
/// Entries without one are told apart by the second result, the one with the
/// lowest ID.
fn find_parents(entries: &Vec<PanelEntry>, keys: &Vec<Vec<Component>>, order: &Vec<usize>) -> (result: (
    Vec<usize>,
    Option<usize>,
))
    requires
        keyed(keys@, items_of(entries@)),
        sorted_paths(keys@, order@),
        distinct_items(items_of(entries@)),
    ensures
        result.0@.len() == entries@.len(),
        match result.1 {
            Some(i) => i < entries@.len() && first_orphan(
                items_of(entries@),
                entries@.len() as int,
            ) == Some(i as int),
            None => first_orphan(items_of(entries@), entries@.len() as int) is None,
        },
        result.1 is None ==> forall|i: int|
            0 <= i < entries@.len() && entries@[i].path@.len() > 0 ==> {
                &&& (#[trigger] result.0@[i]) < entries@.len()
                &&& entries@[result.0@[i] as int]@.directory
                &&& parts(entries@[result.0@[i] as int].path@) == parts(
                    entries@[i].path@,
                ).drop_last()
                &&& parts(entries@[i].path@).len() > 0
            },
{
    let ghost list = items_of(entries@);
    let mut parents: Vec<usize> = Vec::new();
    let mut orphan: Option<usize> = None;
    let mut i: usize = 0;
    while i < entries.len()
        invariant
            i <= entries@.len(),
            list == items_of(entries@),
            keyed(keys@, list),
            sorted_paths(keys@, order@),
            distinct_items(list),
            parents@.len() == i,
            match orphan {
                Some(k) => k < i && first_orphan(list, i as int) == Some(k as int),
                None => first_orphan(list, i as int) is None,
            },
            orphan is None ==> forall|k: int|
                0 <= k < i && entries@[k].path@.len() > 0 ==> {
                    &&& (#[trigger] parents@[k]) < entries@.len()
                    &&& entries@[parents@[k] as int]@.directory
                    &&& parts(entries@[parents@[k] as int].path@) == parts(
                        entries@[k].path@,
                    ).drop_last()
                    &&& parts(entries@[k].path@).len() > 0
                },
        decreases entries@.len() - i,
    {
        let entry = &entries[i];
        let key = &keys[i];
        assert(list[i as int] == entry@);
        if entry.path.as_str().unicode_len() == 0 {
            parents.push(0);
        } else {
            let ghost path = parts(entry.path@);
            let ghost above = path.drop_last();
            proof {
                if path.len() == 0 {
                    lemma_path_has_parts(entry.path@);
                }
                assert(part_list(key@) == path);
                assert(path.take(path.len() - 1) =~= above);
            }
            let found = find_path(keys, order, key, key.len() - 1);
            let mut parent: usize = 0;
            let fine = match found {
                Some(p) => {
                    parent = p;
                    proof {
                        assert(list[p as int] == entries@[p as int]@);
                        assert(at_path(list[p as int], above));
                        if has_directory(list, above) {
                            let d = choose|d: int|
                                0 <= d < list.len() && at_path(#[trigger] list[d], above)
                                    && list[d].directory;
                            if d < p {
                                assert(parts(list[d].path) != parts(list[p as int].path));
                            } else if p < d {
                                assert(parts(list[p as int].path) != parts(list[d].path));
                            }
                        }
                    }
                    entries[p].is_directory()
                },
                None => {
                    proof {
                        if has_path(list, above) {
                            let d = choose|d: int|
                                0 <= d < list.len() && at_path(#[trigger] list[d], above);
                            assert(part_list(keys@[d]@) == above);
                        }
                    }
                    false
                },
            };
            assert(fine == orphan_fault(list, i as int) is None);
            parents.push(parent);
            if !fine {
                let lower = match orphan {
                    Some(k) => {
                        assert(list[k as int] == entries@[k as int]@);
                        entry.id.0 < entries[k].id.0
                    },
                    None => true,
                };
                if lower {
                    orphan = Some(i);
                }
            }
        }
        i += 1;
    }
    (parents, orphan)
}

proof fn lemma_path_has_parts(path: Seq<char>)
    requires
        path.len() > 0,
        !absolute(path),
    ensures
        parts(path).len() > 0,
{
    let list = crate::text::pieces(path, '/');
    crate::text::lemma_first_index(path, '/');
    assert(list[0].len() > 0) by {
        let i = crate::text::first_index(path, '/');
        if i < path.len() {
            assert(list[0] == path.take(i));
        } else {
            assert(list[0] == path);
        }
    }
    lemma_first_piece_counts(list);
}

proof fn lemma_first_piece_counts(list: Seq<Seq<char>>)
    requires
        list.len() > 0,
        list[0].len() > 0,
    ensures
        crate::paths::parts_of(list).len() > 0,
    decreases list.len(),
{
    if list.len() == 1 {
        assert(list.last() == list[0]);
    } else {
        lemma_first_piece_counts(list.drop_last());
    }
}

/// Indices in the order of the tree.
spec fn sorted_tree(list: Seq<Item>, order: Seq<usize>) -> bool {
    &&& order.len() == list.len()
    &&& forall|p: int| 0 <= p < order.len() ==> #[trigger] order[p] < list.len()
    &&& forall|n: usize| n < list.len() ==> #[trigger] order.contains(n)
    &&& forall|p: int, q: int|
        0 <= p < q < order.len() ==> levels_precede(
            place_of(list[#[trigger] order[p] as int]),
            place_of(list[#[trigger] order[q] as int]),
        )
}

fn sort_tree(entries: &Vec<PanelEntry>, keys: &Vec<Vec<Component>>) -> (order: Vec<usize>)
    requires
        keyed(keys@, items_of(entries@)),
        distinct_items(items_of(entries@)),
    ensures
        sorted_tree(items_of(entries@), order@),
{
    let ghost list = items_of(entries@);
    let mut directories: Vec<bool> = Vec::new();
    let mut i: usize = 0;
    while i < entries.len()
        invariant
            i <= entries@.len(),
            directories@.len() == i,
            forall|k: int| 0 <= k < i ==> #[trigger] directories@[k] == entries@[k]@.directory,
        decreases entries@.len() - i,
    {
        directories.push(entries[i].is_directory());
        i += 1;
    }
    let places = Places { keys, directories: &directories };
    let order = sorted_indices(&places, keys.len());
    proof {
        assert forall|p: int, q: int| 0 <= p < q < order@.len() implies levels_precede(
            place_of(list[#[trigger] order@[p] as int]),
            place_of(list[#[trigger] order@[q] as int]),
        ) by {
            let (a, b) = (order@[p] as int, order@[q] as int);
            assert(ahead(places, a, b));
            assert(directories@[a] == list[a].directory && directories@[b] == list[b].directory);
            assert(places.place(a) == place_of(list[a]));
            assert(places.place(b) == place_of(list[b]));
            lemma_levels_strict(place_of(list[a]), place_of(list[b]));
            if !levels_precede(place_of(list[a]), place_of(list[b])) {
                assert(a < b);
                lemma_levels_same(
                    parts(list[a].path),
                    parts(list[b].path),
                    list[a].directory,
                    list[b].directory,
                );
                assert(parts(list[a].path) != parts(list[b].path));
            }
        }
    }
    order
}

/// Where each index stands in an order.
fn invert(order: &Vec<usize>) -> (positions: Vec<usize>)
    requires
        forall|p: int| 0 <= p < order@.len() ==> #[trigger] order@[p] < order@.len(),
        forall|n: usize| n < order@.len() ==> #[trigger] order@.contains(n),
        forall|p: int, q: int|
            0 <= p < q < order@.len() ==> #[trigger] order@[p] != #[trigger] order@[q],
    ensures
        positions@.len() == order@.len(),
        forall|n: int|
            0 <= n < order@.len() ==> #[trigger] positions@[n] < order@.len()
                && order@[positions@[n] as int] == n,
{
    let mut positions: Vec<usize> = Vec::new();
    let mut i: usize = 0;
    while i < order.len()
        invariant
            i <= order@.len(),
            positions@.len() == i,
        decreases order@.len() - i,
    {
        positions.push(0);
        i += 1;
    }
    let mut p: usize = 0;
    while p < order.len()
        invariant
            p <= order@.len(),
            positions@.len() == order@.len(),
            forall|p: int| 0 <= p < order@.len() ==> #[trigger] order@[p] < order@.len(),
            forall|p: int, q: int|
                0 <= p < q < order@.len() ==> #[trigger] order@[p] != #[trigger] order@[q],
            forall|q: int| 0 <= q < p ==> positions@[#[trigger] order@[q] as int] == q,
        decreases order@.len() - p,
    {
        positions.set(order[p], p);
        p += 1;
    }
    proof {
        assert forall|n: int| 0 <= n < order@.len() implies #[trigger] positions@[n] < order@.len()
            && order@[positions@[n] as int] == n by {
            assert(order@.contains(n as usize));
            let q = choose|q: int| 0 <= q < order@.len() && order@[q] == n as usize;
            assert(positions@[order@[q] as int] == q);
        }
    }
    positions
}

proof fn lemma_permuted(list: Seq<Item>, order: Seq<usize>, result: Seq<Item>)
    requires
        list.len() <= usize::MAX,
        sorted_tree(list, order),
        result == Seq::new(order.len(), |k: int| list[order[k] as int]),
    ensures
        same_items(result, list),
{
    assert forall|item: Item| #[trigger] result.contains(item) == list.contains(item) by {
        if result.contains(item) {
            let k = choose|k: int| 0 <= k < result.len() && result[k] == item;
            assert(list[order[k] as int] == item);
        }
        if list.contains(item) {
            let i = choose|i: int| 0 <= i < list.len() && list[i] == item;
            assert(order.contains(i as usize));
            let k = choose|k: int| 0 <= k < order.len() && order[k] == i as usize;
            assert(result[k] == item);
        }
    }
}

proof fn lemma_tree(list: Seq<Item>, order: Seq<usize>, result: Seq<Item>)
    requires
        0 < list.len() <= usize::MAX,
        sorted_tree(list, order),
        distinct_items(list),
        has_root(list),
        first_orphan(list, list.len() as int) is None,
        result == Seq::new(order.len(), |k: int| list[order[k] as int]),
    ensures
        tree(result),
{
    assert forall|p: int, q: int| 0 <= p < q < order.len() implies #[trigger] order[p]
        != #[trigger] order[q] by {
        lemma_levels_strict(place_of(list[order[p] as int]), place_of(list[order[p] as int]));
    }
    assert forall|i: int, j: int| 0 <= i < j < result.len() implies (#[trigger] result[i]).id != (
    #[trigger] result[j]).id && parts(result[i].path) != parts(result[j].path) by {
        let (a, b) = (order[i] as int, order[j] as int);
        assert(result[i] == list[a] && result[j] == list[b]);
        if a < b {
            assert(list[a].id != list[b].id && parts(list[a].path) != parts(list[b].path));
        } else {
            assert(list[b].id != list[a].id && parts(list[b].path) != parts(list[a].path));
        }
    }
    assert forall|i: int, j: int| 0 <= i < j < result.len() implies levels_precede(
        place_of(#[trigger] result[i]),
        place_of(#[trigger] result[j]),
    ) by {
        assert(result[i] == list[order[i] as int] && result[j] == list[order[j] as int]);
    }
    let r = choose|r: int| 0 <= r < list.len() && (#[trigger] list[r]).path.len() == 0;
    assert(order.contains(r as usize));
    let q = choose|q: int| 0 <= q < order.len() && order[q] == r as usize;
    lemma_no_parts(list[r].path);
    assert(place_of(result[q]).len() == 0);
    if q > 0 {
        assert(levels_precede(place_of(result[0]), place_of(result[q])));
    }
    assert forall|i: int| 0 < i < result.len() implies parts((#[trigger] result[i]).path).len() > 0
        && exists|p: int| #[trigger] is_parent(result, p, i) by {
        let k = order[i] as int;
        assert(result[i] == list[k]);
        assert(parts(result[0].path) != parts(result[i].path));
        if parts(result[i].path).len() == 0 {
            assert(parts(result[i].path) =~= parts(result[0].path));
        }
        lemma_no_parts(list[k].path);
        lemma_no_orphan(list, list.len() as int, k);
        let above = parts(list[k].path).drop_last();
        let d = choose|d: int|
            0 <= d < list.len() && at_path(#[trigger] list[d], above) && list[d].directory;
        assert(order.contains(d as usize));
        let p = choose|p: int| 0 <= p < order.len() && order[p] == d as usize;
        assert(result[p] == list[d]);
        lemma_parent_first(result, p, i);
        assert(is_parent(result, p, i));
    }
}

proof fn lemma_no_orphan(list: Seq<Item>, count: int, i: int)
    requires
        0 <= i < count <= list.len(),
        first_orphan(list, count) is None,
    ensures
        orphan_fault(list, i) is None,
    decreases count,
{
    if i < count - 1 {
        lemma_no_orphan(list, count - 1, i);
    }
}

/// A directory comes before what it holds.
proof fn lemma_parent_first(list: Seq<Item>, p: int, i: int)
    requires
        0 <= p < list.len(),
        0 <= i < list.len(),
        list[p].directory,
        parts(list[i].path).len() > 0,
        parts(list[p].path) == parts(list[i].path).drop_last(),
        forall|a: int, b: int|
            0 <= a < b < list.len() ==> levels_precede(
                place_of(#[trigger] list[a]),
                place_of(#[trigger] list[b]),
            ),
    ensures
        p < i,
{
    let above = place_of(list[p]);
    let below = place_of(list[i]);
    assert(above =~= below.take(above.len() as int));
    lemma_prefix_precedes(above, below);
    lemma_levels_strict(above, below);
    if i < p {
        assert(levels_precede(place_of(list[i]), place_of(list[p])));
    }
}

impl FileTree {
    /// Brings the entries of a project into the order of the tree.
    pub fn build(entries: Vec<PanelEntry>) -> (result: Result<Self, PanelError>)
        ensures
            refusal(result) == snapshot_fault(items_of(entries@)),
            result matches Ok(built) ==> tree(built@) && same_items(built@, items_of(entries@)),
    {
        let ghost list = items_of(entries@);
        if entries.len() == 0 || entries.len() > MAX_PANEL_ENTRIES {
            return Err(PanelError::EntryCount);
        }
        let keys = parse_paths(&entries);
        let path_order = sort_paths(&keys);
        let repeated = find_repeated(&keys, &path_order);
        match validate_entries(&entries, &keys, &repeated) {
            Ok(()) => {},
            Err(error) => {
                return Err(error);
            },
        }
        proof {
            lemma_distinct(list);
        }
        if !has_root_entry(&entries) {
            return Err(PanelError::RootCount);
        }
        let (above, orphan) = find_parents(&entries, &keys, &path_order);
        if let Some(i) = orphan {
            assert(list[i as int] == entries@[i as int]@);
            proof {
                lemma_orphan(list, list.len() as int);
            }
            return Err(orphan_error(&entries, &keys, &path_order, i));
        }
        let order = sort_tree(&entries, &keys);
        proof {
            assert forall|p: int, q: int| 0 <= p < q < order@.len() implies #[trigger] order@[p]
                != #[trigger] order@[q] by {
                lemma_levels_strict(
                    place_of(list[order@[p] as int]),
                    place_of(list[order@[p] as int]),
                );
            }
        }
        let positions = invert(&order);
        let ghost result = Seq::new(order@.len(), |k: int| list[order@[k] as int]);
        proof {
            lemma_permuted(list, order@, result);
            lemma_tree(list, order@, result);
        }
        let mut sorted: Vec<PanelEntry> = Vec::new();
        let mut sorted_keys: Vec<Vec<Component>> = Vec::new();
        let mut parents: Vec<usize> = Vec::new();
        let mut k: usize = 0;
        while k < order.len()
            invariant
                k <= order@.len() == list.len(),
                list == items_of(entries@),
                keyed(keys@, list),
                sorted_tree(list, order@),
                tree(result),
                result == Seq::new(order@.len(), |k: int| list[order@[k] as int]),
                positions@.len() == order@.len(),
                forall|n: int|
                    0 <= n < order@.len() ==> #[trigger] positions@[n] < order@.len()
                        && order@[positions@[n] as int] == n,
                above@.len() == entries@.len(),
                forall|i: int|
                    0 <= i < entries@.len() && entries@[i].path@.len() > 0 ==> {
                        &&& (#[trigger] above@[i]) < entries@.len()
                        &&& entries@[above@[i] as int]@.directory
                        &&& parts(entries@[above@[i] as int].path@) == parts(
                            entries@[i].path@,
                        ).drop_last()
                        &&& parts(entries@[i].path@).len() > 0
                    },
                sorted@.len() == k,
                sorted_keys@.len() == k,
                parents@.len() == k,
                forall|n: int| 0 <= n < k ==> (#[trigger] sorted@[n])@ == result[n],
                forall|n: int|
                    0 <= n < k ==> part_list((#[trigger] sorted_keys@[n])@) == parts(
                        result[n].path,
                    ),
                forall|n: int| 0 < n < k ==> is_parent(result, #[trigger] parents@[n] as int, n),
            decreases order@.len() - k,
        {
            let i: usize = order[k];
            assert(result[k as int] == list[i as int]);
            assert(list[i as int] == entries@[i as int]@);
            sorted.push(entries[i].clone());
            sorted_keys.push(components(entries[i].path.as_str()));
            let parent: usize = if k == 0 {
                0
            } else {
                proof {
                    lemma_no_parts(result[k as int].path);
                    assert(entries@[i as int].path@.len() > 0);
                    let d = above@[i as int] as int;
                    assert(list[d] == entries@[d]@);
                    let p = positions@[d] as int;
                    assert(result[p] == list[d]);
                    lemma_parent_first(result, p, k as int);
                }
                positions[above[i]]
            };
            parents.push(parent);
            k += 1;
        }
        proof {
            assert(items_of(sorted@) =~= result);
        }
        Ok(FileTree { entries: sorted, keys: sorted_keys, parents })
    }
}

proof fn lemma_orphan(list: Seq<Item>, count: int)
    requires
        0 <= count <= list.len(),
        first_orphan(list, count) is Some,
    ensures
        0 <= first_orphan(list, count)->0 < count,
        orphan_fault(list, first_orphan(list, count)->0) is Some,
    decreases count,
{
    if count > 0 && first_orphan(list, count - 1) is Some {
        lemma_orphan(list, count - 1);
    }
}

fn has_root_entry(entries: &Vec<PanelEntry>) -> (result: bool)
    ensures
        result == has_root(items_of(entries@)),
{
    let ghost list = items_of(entries@);
    let mut i: usize = 0;
    while i < entries.len()
        invariant
            i <= entries@.len(),
            list == items_of(entries@),
            forall|k: int| 0 <= k < i ==> (#[trigger] list[k]).path.len() > 0,
        decreases entries@.len() - i,
    {
        assert(list[i as int] == entries@[i as int]@);
        if entries[i].path.as_str().unicode_len() == 0 {
            return true;
        }
        i += 1;
    }
    false
}

fn orphan_error(
    entries: &Vec<PanelEntry>,
    keys: &Vec<Vec<Component>>,
    order: &Vec<usize>,
    i: usize,
) -> (error: PanelError)
    requires
        keyed(keys@, items_of(entries@)),
        sorted_paths(keys@, order@),
        i < entries@.len(),
        distinct_items(items_of(entries@)),
        orphan_fault(items_of(entries@), i as int) is Some,
    ensures
        orphan_fault(items_of(entries@), i as int) == Some(error@),
{
    let ghost list = items_of(entries@);
    let entry = &entries[i];
    assert(list[i as int] == entry@);
    let key = &keys[i];
    let ghost path = parts(entry.path@);
    let ghost above = path.drop_last();
    proof {
        lemma_path_has_parts(entry.path@);
        assert(part_list(key@) == path);
        assert(path.take(path.len() - 1) =~= above);
    }
    match find_path(keys, order, key, key.len() - 1) {
        Some(p) => {
            assert(at_path(list[p as int], above));
            PanelError::ParentIsNoDirectory
        },
        None => {
            proof {
                if has_path(list, above) {
                    let d = choose|d: int|
                        0 <= d < list.len() && at_path(#[trigger] list[d], above);
                    assert(part_list(keys@[d]@) == above);
                }
            }
            PanelError::NoParent(entry.path.clone())
        },
    }
}

/// Whether the path of an item leads through another item.
pub open spec fn on_path(list: Seq<Item>, a: int, i: int) -> bool {
    let above = parts(list[a].path);
    let below = parts(list[i].path);
    0 <= a < list.len() && above.len() < below.len() && below.take(above.len() as int) == above
}

/// Whether ignored and hidden items are shown.
pub struct Shown {
    pub ignored: bool,
    pub hidden: bool,
}

pub open spec fn allowed(item: Item, show: Shown) -> bool {
    (show.ignored || !item.ignored) && (show.hidden || !item.hidden)
}

/// Whether an item and what leads to it may be shown; the root always may.
pub open spec fn reachable(list: Seq<Item>, show: Shown, i: int) -> bool {
    forall|a: int|
        0 < a < list.len() && (a == i || on_path(list, a, i)) ==> allowed(#[trigger] list[a], show)
}

/// Whether an item is what is searched for.
pub open spec fn hit(list: Seq<Item>, show: Shown, found: Seq<bool>, i: int) -> bool {
    0 <= i < list.len() && allowed(list[i], show) && found[i]
}

/// Whether an item that is searched for lies beneath another.
pub open spec fn leads_to_hit(list: Seq<Item>, show: Shown, found: Seq<bool>, i: int) -> bool {
    exists|j: int| hit(list, show, found, j) && #[trigger] on_path(list, i, j)
}

/// Which items are shown: where nothing is searched for, those in expanded
/// directories; else those that are searched for and what leads to them.
pub open spec fn shown(
    list: Seq<Item>,
    expanded: Set<u64>,
    show: Shown,
    found: Option<Seq<bool>>,
) -> spec_fn(int) -> bool {
    |i: int|
        reachable(list, show, i) && match found {
            None => forall|a: int| #[trigger]
                on_path(list, a, i) ==> expanded.contains(list[a].id),
            Some(found) => hit(list, show, found, i) || leads_to_hit(list, show, found, i),
        }
}

/// The items that are shown, in order.
pub open spec fn visible(
    list: Seq<Item>,
    expanded: Set<u64>,
    show: Shown,
    found: Option<Seq<bool>>,
) -> Seq<int> {
    kept(0, list.len() as int, shown(list, expanded, show, found))
}

/// The parents of the items of a tree.
spec fn linked(list: Seq<Item>, parents: Seq<usize>) -> bool {
    &&& tree(list)
    &&& parents.len() == list.len()
    &&& forall|i: int|
        0 < i < list.len() ==> is_parent(list, #[trigger] parents[i] as int, i)
}

proof fn lemma_through_parent(list: Seq<Item>, parents: Seq<usize>, a: int, i: int)
    requires
        linked(list, parents),
        0 < i < list.len(),
        0 <= a < list.len(),
    ensures
        on_path(list, a, i) == (a == parents[i] || on_path(list, a, parents[i] as int)),
{
    let p = parents[i] as int;
    assert(is_parent(list, p, i));
    let above = parts(list[a].path);
    let below = parts(list[i].path);
    let middle = parts(list[p].path);
    assert(below.len() > 0);
    assert(middle.len() == below.len() - 1);
    assert(middle =~= below.take(middle.len() as int));
    if above.len() < middle.len() {
        assert(below.take(above.len() as int) =~= middle.take(above.len() as int));
    } else if above.len() == middle.len() {
        if on_path(list, a, i) && a != p {
            if a < p {
                assert(parts(list[a].path) != parts(list[p].path));
            } else {
                assert(parts(list[p].path) != parts(list[a].path));
            }
        }
    }
}

proof fn lemma_root_leads(list: Seq<Item>, a: int)
    requires
        tree(list),
    ensures
        !on_path(list, a, 0),
{
    lemma_no_parts(list[0].path);
}

proof fn lemma_reachable(list: Seq<Item>, parents: Seq<usize>, show: Shown, i: int)
    requires
        linked(list, parents),
        0 < i < list.len(),
    ensures
        reachable(list, show, i) == (reachable(list, show, parents[i] as int) && allowed(
            list[i],
            show,
        )),
{
    let p = parents[i] as int;
    assert(is_parent(list, p, i));
    assert forall|a: int| 0 < a < list.len() implies (a == i || on_path(list, a, i)) == (a == i
        || a == p || on_path(list, a, p)) by {
        lemma_through_parent(list, parents, a, i);
    }
    if reachable(list, show, i) {
        assert(allowed(list[i], show));
        assert forall|a: int| 0 < a < list.len() && (a == p || on_path(list, a, p)) implies allowed(
            #[trigger] list[a],
            show,
        ) by {}
    }
    if reachable(list, show, p) && allowed(list[i], show) {
        assert forall|a: int| 0 < a < list.len() && (a == i || on_path(list, a, i)) implies allowed(
            #[trigger] list[a],
            show,
        ) by {}
    }
}

/// The step below an item on the way to another.
proof fn lemma_next_step(list: Seq<Item>, parents: Seq<usize>, a: int, j: int) -> (c: int)
    requires
        linked(list, parents),
        0 <= a < list.len(),
        0 <= j < list.len(),
        on_path(list, a, j),
    ensures
        0 < c < list.len(),
        parents[c] == a,
        c == j || on_path(list, c, j),
    decreases j,
{
    lemma_root_leads(list, a);
    lemma_through_parent(list, parents, a, j);
    let p = parents[j] as int;
    assert(is_parent(list, p, j));
    if a == p {
        j
    } else {
        let c = lemma_next_step(list, parents, a, p);
        lemma_through_parent(list, parents, c, j);
        c
    }
}

proof fn lemma_leads_through_child(
    list: Seq<Item>,
    parents: Seq<usize>,
    show: Shown,
    found: Seq<bool>,
    a: int,
)
    requires
        linked(list, parents),
        0 <= a < list.len(),
    ensures
        leads_to_hit(list, show, found, a) == exists|c: int|
            0 < c < list.len() && #[trigger] parents[c] == a && (hit(list, show, found, c)
                || leads_to_hit(list, show, found, c)),
{
    if leads_to_hit(list, show, found, a) {
        let j = choose|j: int| hit(list, show, found, j) && #[trigger] on_path(list, a, j);
        let c = lemma_next_step(list, parents, a, j);
        if c != j {
            assert(leads_to_hit(list, show, found, c));
        }
        assert(parents[c] == a);
    }
    if exists|c: int|
        0 < c < list.len() && #[trigger] parents[c] == a && (hit(list, show, found, c)
            || leads_to_hit(list, show, found, c)) {
        let c = choose|c: int|
            0 < c < list.len() && #[trigger] parents[c] == a && (hit(list, show, found, c)
                || leads_to_hit(list, show, found, c));
        lemma_through_parent(list, parents, a, c);
        if hit(list, show, found, c) {
            assert(on_path(list, a, c));
        } else {
            let j = choose|j: int| hit(list, show, found, j) && #[trigger] on_path(list, c, j);
            let (top, middle, below) = (
                parts(list[a].path),
                parts(list[c].path),
                parts(list[j].path),
            );
            assert(below.take(top.len() as int) =~= middle.take(top.len() as int));
            assert(on_path(list, a, j));
        }
    }
}

/// The flags of a search.
pub open spec fn flags(found: Option<Vec<bool>>) -> Option<Seq<bool>> {
    match found {
        Some(found) => Some(found@),
        None => None,
    }
}

fn is_allowed(entry: &PanelEntry, show_ignored: bool, show_hidden: bool) -> (result: bool)
    ensures
        result == allowed(entry@, (Shown { ignored: show_ignored, hidden: show_hidden })),
{
    (show_ignored || !entry.ignored) && (show_hidden || !entry.hidden)
}

proof fn lemma_root_shown(list: Seq<Item>, expanded: Set<u64>, show: Shown)
    requires
        tree(list),
    ensures
        shown(list, expanded, show, None)(0),
{
    assert forall|a: int| !#[trigger] on_path(list, a, 0) by {
        lemma_root_leads(list, a);
    }
}

/// An item is listed where its parent is, the parent is open and the item
/// itself may be listed.
proof fn lemma_open(
    list: Seq<Item>,
    parents: Seq<usize>,
    expanded: Set<u64>,
    show: Shown,
    i: int,
)
    requires
        linked(list, parents),
        0 < i < list.len(),
    ensures
        shown(list, expanded, show, None)(i) == (shown(list, expanded, show, None)(
            parents[i] as int,
        ) && expanded.contains(list[parents[i] as int].id) && allowed(list[i], show)),
{
    let p = parents[i] as int;
    assert(is_parent(list, p, i));
    lemma_reachable(list, parents, show, i);
    lemma_through_parent(list, parents, p, i);
    assert forall|a: int| #[trigger] on_path(list, a, i) == (a == p || on_path(list, a, p)) by {
        if 0 <= a < list.len() {
            lemma_through_parent(list, parents, a, i);
        }
    }
    let keep = shown(list, expanded, show, None);
    if keep(i) {
        assert(on_path(list, p, i));
        assert forall|a: int| #[trigger] on_path(list, a, p) implies expanded.contains(
            list[a].id,
        ) by {
            assert(on_path(list, a, i));
        }
    }
}

impl FileTree {
    fn open_entries(&self, expanded: &BTreeSet<u64>, show_ignored: bool, show_hidden: bool) -> (
        result: Vec<usize>)
        ensures
            numbers(result@) == visible(
                self@,
                expanded@,
                (Shown { ignored: show_ignored, hidden: show_hidden }),
                None,
            ),
    {
        proof {
            use_type_invariant(self);
        }
        let ghost list = self@;
        let ghost show = Shown { ignored: show_ignored, hidden: show_hidden };
        let ghost keep = shown(list, expanded@, show, None);
        let mut marks: Vec<bool> = Vec::new();
        let mut result: Vec<usize> = Vec::new();
        let mut i: usize = 0;
        assert(numbers(result@) =~= Seq::<int>::empty());
        while i < self.entries.len()
            invariant
                i <= self.entries@.len() == list.len(),
                list == self@,
                linked(list, self.parents@),
                show == (Shown { ignored: show_ignored, hidden: show_hidden }),
                keep == shown(list, expanded@, show, None),
                marks@.len() == i,
                forall|k: int| 0 <= k < i ==> #[trigger] marks@[k] == keep(k),
                numbers(result@) == kept(0, i as int, keep),
            decreases self.entries@.len() - i,
        {
            let entry = &self.entries[i];
            assert(list[i as int] == entry@);
            let open = if i == 0 {
                proof {
                    lemma_root_shown(list, expanded@, show);
                }
                true
            } else {
                let p: usize = self.parents[i];
                proof {
                    assert(is_parent(list, p as int, i as int));
                    assert(list[p as int] == self.entries@[p as int]@);
                    lemma_open(list, self.parents@, expanded@, show, i as int);
                }
                marks[p] && expanded.contains(&self.entries[p].id.0) && is_allowed(
                    entry,
                    show_ignored,
                    show_hidden,
                )
            };
            assert(open == keep(i as int));
            marks.push(open);
            if open {
                result.push(i);
            }
            i += 1;
            assert(numbers(result@) =~= kept(0, i as int, keep));
        }
        result
    }

    #[verifier::spinoff_prover]
    #[verifier::rlimit(40)]
    fn found_entries(
        &self,
        found: &Vec<bool>,
        show_ignored: bool,
        show_hidden: bool,
        expanded: Ghost<Set<u64>>,
    ) -> (result: Vec<usize>)
        requires
            found@.len() == self@.len(),
        ensures
            numbers(result@) == visible(
                self@,
                expanded@,
                (Shown { ignored: show_ignored, hidden: show_hidden }),
                Some(found@),
            ),
    {
        proof {
            use_type_invariant(self);
        }
        let ghost list = self@;
        let ghost show = Shown { ignored: show_ignored, hidden: show_hidden };
        let mut leads: Vec<bool> = Vec::new();
        let mut chain: Vec<bool> = Vec::new();
        let mut i: usize = 0;
        while i < self.entries.len()
            invariant
                i <= self.entries@.len() == list.len(),
                list == self@,
                linked(list, self.parents@),
                show == (Shown { ignored: show_ignored, hidden: show_hidden }),
                leads@.len() == i,
                chain@.len() == i,
                forall|k: int| 0 <= k < i ==> !#[trigger] leads@[k],
                forall|k: int| 0 <= k < i ==> #[trigger] chain@[k] == reachable(list, show, k),
            decreases self.entries@.len() - i,
        {
            assert(list[i as int] == self.entries@[i as int]@);
            let fine = if i == 0 {
                proof {
                    assert forall|a: int| !#[trigger] on_path(list, a, 0) by {
                        lemma_root_leads(list, a);
                    }
                }
                true
            } else {
                let p: usize = self.parents[i];
                proof {
                    assert(is_parent(list, p as int, i as int));
                    lemma_reachable(list, self.parents@, show, i as int);
                }
                chain[p] && is_allowed(&self.entries[i], show_ignored, show_hidden)
            };
            leads.push(false);
            chain.push(fine);
            i += 1;
        }
        let ghost parents = self.parents@;
        let mut next: usize = self.entries.len();
        while next > 0
            invariant
                next <= self.entries@.len() == list.len(),
                list == self@,
                parents == self.parents@,
                linked(list, parents),
                found@.len() == list.len(),
                show == (Shown { ignored: show_ignored, hidden: show_hidden }),
                leads@.len() == list.len(),
                forall|a: int|
                    0 <= a < list.len() ==> #[trigger] leads@[a] == exists|c: int|
                        next <= c < list.len() && 0 < c && #[trigger] parents[c] == a && (hit(
                            list,
                            show,
                            found@,
                            c,
                        ) || leads_to_hit(list, show, found@, c)),
            decreases next,
        {
            next -= 1;
            let ghost before = leads@;
            let ghost n = next as int;
            proof {
                assert(list[n] == self.entries@[n]@);
                lemma_leads_through_child(list, parents, show, found@, n);
                assert forall|c: int| 0 < c < list.len() && #[trigger] parents[c] == n implies c
                    > n by {
                    assert(is_parent(list, parents[c] as int, c));
                }
                assert(leads@[n] == leads_to_hit(list, show, found@, n)) by {
                    if leads_to_hit(list, show, found@, n) {
                        let c = choose|c: int|
                            0 < c < list.len() && #[trigger] parents[c] == n && (hit(
                                list,
                                show,
                                found@,
                                c,
                            ) || leads_to_hit(list, show, found@, c));
                        assert(next + 1 <= c && parents[c] == n);
                    }
                }
            }
            if next > 0 {
                let is_hit = found[next] && is_allowed(
                    &self.entries[next],
                    show_ignored,
                    show_hidden,
                );
                let p: usize = self.parents[next];
                assert(is_parent(list, p as int, n));
                if is_hit || leads[next] {
                    leads.set(p, true);
                }
                proof {
                    let counts = hit(list, show, found@, n) || leads_to_hit(list, show, found@, n);
                    assert(counts == (is_hit || before[n]));
                    assert forall|a: int| 0 <= a < list.len() implies #[trigger] leads@[a]
                        == exists|c: int|
                        next <= c < list.len() && 0 < c && #[trigger] parents[c] == a && (hit(
                            list,
                            show,
                            found@,
                            c,
                        ) || leads_to_hit(list, show, found@, c)) by {
                        assert(before[a] == exists|c: int|
                            next + 1 <= c < list.len() && 0 < c && #[trigger] parents[c] == a
                                && (hit(list, show, found@, c) || leads_to_hit(
                                list,
                                show,
                                found@,
                                c,
                            )));
                        if counts && a == p {
                            assert(parents[n] == a);
                        }
                    }
                }
            }
        }
        let ghost keep = shown(list, expanded@, show, Some(found@));
        let mut result: Vec<usize> = Vec::new();
        let mut k: usize = 0;
        assert(numbers(result@) =~= Seq::<int>::empty());
        while k < self.entries.len()
            invariant
                k <= self.entries@.len() == list.len(),
                list == self@,
                parents == self.parents@,
                linked(list, parents),
                found@.len() == list.len(),
                show == (Shown { ignored: show_ignored, hidden: show_hidden }),
                keep == shown(list, expanded@, show, Some(found@)),
                leads@.len() == list.len(),
                chain@.len() == list.len(),
                forall|k: int|
                    0 <= k < list.len() ==> #[trigger] chain@[k] == reachable(list, show, k),
                forall|a: int|
                    0 <= a < list.len() ==> #[trigger] leads@[a] == exists|c: int|
                        0 <= c < list.len() && 0 < c && #[trigger] parents[c] == a && (hit(
                            list,
                            show,
                            found@,
                            c,
                        ) || leads_to_hit(list, show, found@, c)),
                numbers(result@) == kept(0, k as int, keep),
            decreases self.entries@.len() - k,
        {
            proof {
                assert(list[k as int] == self.entries@[k as int]@);
                lemma_leads_through_child(list, parents, show, found@, k as int);
                assert(leads@[k as int] == leads_to_hit(list, show, found@, k as int));
            }
            let is_shown = chain[k] && (leads[k] || found[k] && is_allowed(
                &self.entries[k],
                show_ignored,
                show_hidden,
            ));
            assert(is_shown == keep(k as int));
            if is_shown {
                result.push(k);
            }
            k += 1;
            assert(numbers(result@) =~= kept(0, k as int, keep));
        }
        result
    }

    /// The entries that are shown. `found` tells, of each entry, whether it is
    /// what is searched for; where nothing is, directories that are not
    /// expanded hide what they hold.
    fn visible_entries(
        &self,
        expanded: &BTreeSet<u64>,
        found: &Option<Vec<bool>>,
        show_ignored: bool,
        show_hidden: bool,
    ) -> (result: Vec<usize>)
        requires
            *found matches Some(found) ==> found@.len() == self@.len(),
        ensures
            numbers(result@) == visible(
                self@,
                expanded@,
                (Shown { ignored: show_ignored, hidden: show_hidden }),
                flags(*found),
            ),
            forall|k: int| 0 <= k < result@.len() ==> #[trigger] result@[k] < self@.len(),
    {
        let result = match found {
            Some(found) => self.found_entries(
                found,
                show_ignored,
                show_hidden,
                Ghost(expanded@),
            ),
            None => self.open_entries(expanded, show_ignored, show_hidden),
        };
        proof {
            let show = Shown { ignored: show_ignored, hidden: show_hidden };
            lemma_kept(0, self@.len() as int, shown(self@, expanded@, show, flags(*found)));
            assert forall|k: int| 0 <= k < result@.len() implies #[trigger] result@[k]
                < self@.len() by {
                assert(numbers(result@)[k] == result@[k]);
            }
        }
        result
    }
}

/// The index of the first item with the ID.
pub open spec fn index_of(list: Seq<Item>, id: u64) -> Option<int>
    decreases list.len(),
{
    if list.len() == 0 {
        None
    } else if index_of(list.drop_last(), id) is Some {
        index_of(list.drop_last(), id)
    } else if list.last().id == id {
        Some(list.len() - 1)
    } else {
        None
    }
}

/// The index of the first item with the path.
pub open spec fn path_index(list: Seq<Item>, path: Seq<Part>) -> Option<int>
    decreases list.len(),
{
    if list.len() == 0 {
        None
    } else if path_index(list.drop_last(), path) is Some {
        path_index(list.drop_last(), path)
    } else if at_path(list.last(), path) {
        Some(list.len() - 1)
    } else {
        None
    }
}

pub proof fn lemma_index_of(list: Seq<Item>, id: u64)
    ensures
        index_of(list, id) is Some == has_id(list, id),
        index_of(list, id) matches Some(i) ==> 0 <= i < list.len() && list[i].id == id,
    decreases list.len(),
{
    if list.len() > 0 {
        let front = list.drop_last();
        lemma_index_of(front, id);
        if has_id(front, id) {
            let k = choose|k: int| 0 <= k < front.len() && #[trigger] front[k].id == id;
            assert(list[k].id == id);
        }
        if has_id(list, id) && list.last().id != id {
            let k = choose|k: int| 0 <= k < list.len() && #[trigger] list[k].id == id;
            assert(front[k].id == id);
        }
        if list.last().id == id {
            assert(list[list.len() - 1].id == id);
        }
    }
}

proof fn lemma_index_of_prefix(list: Seq<Item>, count: int, id: u64)
    requires
        0 <= count <= list.len(),
        index_of(list.take(count), id) is Some,
    ensures
        index_of(list, id) == index_of(list.take(count), id),
    decreases list.len(),
{
    if count == list.len() {
        assert(list.take(count) =~= list);
    } else {
        assert(list.drop_last().take(count) =~= list.take(count));
        lemma_index_of_prefix(list.drop_last(), count, id);
    }
}

proof fn lemma_path_index(list: Seq<Item>, path: Seq<Part>)
    ensures
        path_index(list, path) is Some == has_path(list, path),
        path_index(list, path) matches Some(i) ==> 0 <= i < list.len() && at_path(list[i], path),
    decreases list.len(),
{
    if list.len() > 0 {
        let front = list.drop_last();
        lemma_path_index(front, path);
        if has_path(front, path) {
            let k = choose|k: int| 0 <= k < front.len() && at_path(#[trigger] front[k], path);
            assert(at_path(list[k], path));
        }
        if has_path(list, path) && !at_path(list.last(), path) {
            let k = choose|k: int| 0 <= k < list.len() && at_path(#[trigger] list[k], path);
            assert(at_path(front[k], path));
        }
        if at_path(list.last(), path) {
            assert(at_path(list[list.len() - 1], path));
        }
    }
}

proof fn lemma_path_index_prefix(list: Seq<Item>, count: int, path: Seq<Part>)
    requires
        0 <= count <= list.len(),
        path_index(list.take(count), path) is Some,
    ensures
        path_index(list, path) == path_index(list.take(count), path),
    decreases list.len(),
{
    if count == list.len() {
        assert(list.take(count) =~= list);
    } else {
        assert(list.drop_last().take(count) =~= list.take(count));
        lemma_path_index_prefix(list.drop_last(), count, path);
    }
}

/// The ID of the nearest item on the way to a path, or of the root.
pub open spec fn nearest(list: Seq<Item>, path: Seq<Part>) -> u64
    decreases path.len(),
{
    match path_index(list, path) {
        Some(i) => list[i].id,
        None => if path.len() == 0 {
            list[0].id
        } else {
            nearest(list, path.drop_last())
        },
    }
}

/// Which items' paths hold a text, in any case; none are searched where the
/// text is empty.
pub open spec fn found_in(list: Seq<Item>, lowered: Seq<char>) -> Option<Seq<bool>> {
    if lowered.len() == 0 {
        None
    } else {
        Some(Seq::new(list.len(), |i: int| holds(lowercase(list[i].path), lowered)))
    }
}

/// Whether the ID of one of the listed items is this one.
pub open spec fn lists_id(list: Seq<Item>, indices: Seq<int>, id: u64) -> bool {
    exists|k: int| 0 <= k < indices.len() && list[#[trigger] indices[k]].id == id
}

/// The place of an ID among the listed items, or the first place.
pub open spec fn position_of(list: Seq<Item>, indices: Seq<int>, id: u64) -> int
    decreases indices.len(),
{
    if !lists_id(list, indices, id) || list[indices[0]].id == id {
        0
    } else {
        1 + position_of(list, indices.drop_first(), id)
    }
}

/// The first of the listed items that is what is searched for.
pub open spec fn first_found(indices: Seq<int>, found: Option<Seq<bool>>) -> Option<int>
    decreases indices.len(),
{
    if indices.len() == 0 || found is None {
        None
    } else if found->0[indices[0]] {
        Some(indices[0])
    } else {
        first_found(indices.drop_first(), found)
    }
}

/// The selection after what is shown changed: it stays where it is if that is
/// shown, and else moves to what is searched for, or to the first item.
pub open spec fn settled(
    list: Seq<Item>,
    indices: Seq<int>,
    found: Option<Seq<bool>>,
    selected: u64,
) -> u64 {
    if lists_id(list, indices, selected) {
        selected
    } else {
        match first_found(indices, found) {
            Some(i) => list[i].id,
            None => if indices.len() > 0 {
                list[indices[0]].id
            } else {
                list[0].id
            },
        }
    }
}

/// One shown row of the tree.
#[derive(Clone, Copy, Debug, PartialEq, Eq, Structural)]
pub struct PanelRow {
    pub id: ProjectEntryId,
    pub depth: usize,
    pub selected: bool,
    pub expanded: bool,
    pub has_children: bool,
}

/// Whether a directory holds something.
pub open spec fn has_children(list: Seq<Item>, i: int) -> bool {
    exists|c: int| 0 <= c < list.len() && #[trigger] is_parent(list, i, c)
}

/// What a project panel holds.
pub struct Files {
    pub generation: u64,
    pub items: Seq<Item>,
    pub expanded: Set<u64>,
    pub selected: u64,
    pub filter: Seq<char>,
    pub show_ignored: bool,
    pub show_hidden: bool,
}

impl Files {
    /// What the filter finds.
    pub open spec fn found(self) -> Option<Seq<bool>> {
        found_in(self.items, lowercase(self.filter))
    }

    /// The items that are shown.
    pub open spec fn visible(self) -> Seq<int> {
        visible(
            self.items,
            self.expanded,
            (Shown { ignored: self.show_ignored, hidden: self.show_hidden }),
            self.found(),
        )
    }

    /// The panel with its selection on a shown item.
    pub open spec fn settle(self) -> Files {
        Files {
            selected: settled(self.items, self.visible(), self.found(), self.selected),
            ..self
        }
    }

    /// The index of the selected item.
    pub open spec fn selected_index(self) -> int {
        match index_of(self.items, self.selected) {
            Some(i) => i,
            None => 0,
        }
    }

    /// The panel after a filter was set: the selection moves on to what is
    /// searched for.
    pub open spec fn filtered(self, filter: Seq<char>) -> Files {
        let next = Files { filter, ..self }.settle();
        let hit = first_found(next.visible(), next.found());
        match next.found() {
            Some(found) if !found[next.selected_index()] && hit is Some => Files {
                selected: next.items[hit->0].id,
                ..next
            },
            _ => next,
        }
    }

    /// The panel over newer items.
    pub open spec fn refreshed(self, generation: u64, items: Seq<Item>) -> Files {
        Files {
            generation,
            items,
            expanded: Set::new(
                |id: u64|
                    id == items[0].id || self.expanded.contains(id) && index_of(items, id) is Some
                        && items[index_of(items, id)->0].directory,
            ),
            selected: if has_id(items, self.selected) {
                self.selected
            } else {
                match index_of(self.items, self.selected) {
                    Some(i) => nearest(items, parts(self.items[i].path)),
                    None => items[0].id,
                }
            },
            ..self
        }.settle()
    }

    /// The panel after an item was made visible and selected.
    pub open spec fn revealed(self, i: int) -> Files {
        Files {
            expanded: Set::new(
                |id: u64|
                    self.expanded.contains(id) || exists|a: int|
                        #[trigger] on_path(self.items, a, i) && self.items[a].id == id,
            ),
            selected: self.items[i].id,
            ..self
        }
    }

    /// The row of an item.
    pub open spec fn row(self, i: int) -> PanelRow {
        PanelRow {
            id: ProjectEntryId(self.items[i].id),
            depth: parts(self.items[i].path).len() as usize,
            selected: self.items[i].id == self.selected,
            expanded: self.expanded.contains(self.items[i].id),
            has_children: has_children(self.items, i),
        }
    }

    /// The first of the rows that fit.
    pub open spec fn first_row(self, max_rows: int) -> int {
        let list = self.visible();
        centered_start_of(
            list.len() as int,
            position_of(self.items, list, self.selected),
            max_rows,
        )
    }

    /// The rows that fit, around the selected one.
    pub open spec fn rows(self, max_rows: int) -> Seq<PanelRow> {
        let list = self.visible();
        Seq::new(
            least(list.len() as int, max_rows) as nat,
            |k: int| self.row(list[self.first_row(max_rows) + k]),
        )
    }

    /// The place that the selection moves to.
    pub open spec fn next_position(self, delta: int) -> int {
        let list = self.visible();
        stepped(position_of(self.items, list, self.selected), delta, list.len() as int)
    }

    /// The panel after the selection moved.
    pub open spec fn moved(self, delta: int) -> Files {
        let list = self.visible();
        if lists_id(self.items, list, self.selected) {
            Files { selected: self.items[list[self.next_position(delta)]].id, ..self }
        } else {
            self
        }
    }

    /// The panel after a directory other than the root was expanded or closed.
    pub open spec fn toggled(self, id: u64) -> Files {
        if id == self.items[0].id {
            self
        } else {
            Files {
                expanded: if self.expanded.contains(id) {
                    self.expanded.remove(id)
                } else {
                    self.expanded.insert(id)
                },
                ..self
            }.settle()
        }
    }

    /// The panel over the first items that came.
    pub open spec fn opened(generation: u64, items: Seq<Item>) -> Files {
        Files {
            generation,
            items,
            expanded: set![items[0].id],
            selected: if has_id(items, 0) {
                0
            } else {
                items[0].id
            },
            filter: Seq::empty(),
            show_ignored: false,
            show_hidden: false,
        }.settle()
    }
}

impl FileTree {
    fn find_id(&self, id: ProjectEntryId) -> (index: Option<usize>)
        ensures
            index is Some == index_of(self@, id.0) is Some,
            index matches Some(i) ==> i < self@.len() && index_of(self@, id.0) == Some(i as int)
                && self@[i as int].id == id.0,
    {
        let ghost list = self@;
        let mut i: usize = 0;
        assert(list.take(0) =~= Seq::<Item>::empty());
        while i < self.entries.len()
            invariant
                i <= self.entries@.len() == list.len(),
                list == self@,
                index_of(list.take(i as int), id.0) is None,
            decreases self.entries@.len() - i,
        {
            proof {
                assert(list.take(i + 1).drop_last() =~= list.take(i as int));
                assert(list.take(i + 1).last() == self.entries@[i as int]@);
                if self.entries@[i as int].id == id {
                    lemma_index_of_prefix(list, i + 1, id.0);
                }
            }
            if self.entries[i].id.0 == id.0 {
                return Some(i);
            }
            i += 1;
        }
        assert(list.take(i as int) =~= list);
        None
    }

    /// Finds the entry whose path is made of the first components.
    fn find_key(&self, path: &Vec<Component>, count: usize) -> (index: Option<usize>)
        requires
            count <= path@.len(),
        ensures
            index is Some == path_index(self@, part_list(path@).take(count as int)) is Some,
            index matches Some(i) ==> i < self@.len() && path_index(
                self@,
                part_list(path@).take(count as int),
            ) == Some(i as int),
    {
        proof {
            use_type_invariant(self);
        }
        let ghost list = self@;
        let ghost wanted = part_list(path@).take(count as int);
        let mut i: usize = 0;
        assert(list.take(0) =~= Seq::<Item>::empty());
        while i < self.entries.len()
            invariant
                i <= self.entries@.len() == list.len(),
                list == self@,
                keyed(self.keys@, list),
                count <= path@.len(),
                wanted == part_list(path@).take(count as int),
                path_index(list.take(i as int), wanted) is None,
            decreases self.entries@.len() - i,
        {
            let key = &self.keys[i];
            let same = key.len() == count && same_components(key, path, count);
            proof {
                assert(list.take(i + 1).drop_last() =~= list.take(i as int));
                assert(list.take(i + 1).last() == list[i as int]);
                assert(part_list(key@) == parts(list[i as int].path));
                if key@.len() == count {
                    assert(part_list(key@).take(count as int) =~= part_list(key@));
                } else {
                    assert(part_list(key@).len() != wanted.len());
                }
                assert(same == at_path(list[i as int], wanted));
                if same {
                    lemma_path_index_prefix(list, i + 1, wanted);
                }
            }
            if same {
                return Some(i);
            }
            i += 1;
        }
        assert(list.take(i as int) =~= list);
        None
    }

    fn nearest_existing_ancestor(&self, path: &Vec<Component>) -> (id: ProjectEntryId)
        ensures
            id.0 == nearest(self@, part_list(path@)),
    {
        proof {
            use_type_invariant(self);
        }
        let mut count: usize = path.len();
        assert(part_list(path@).take(count as int) =~= part_list(path@));
        loop
            invariant
                count <= path@.len(),
                nearest(self@, part_list(path@)) == nearest(
                    self@,
                    part_list(path@).take(count as int),
                ),
                self@.len() > 0,
            decreases count,
        {
            match self.find_key(path, count) {
                Some(i) => {
                    assert(self@[i as int] == self.entries@[i as int]@);
                    return self.entries[i].id;
                },
                None => {},
            }
            if count == 0 {
                assert(self@[0] == self.entries@[0]@);
                return self.entries[0].id;
            }
            assert(part_list(path@).take(count as int).drop_last() =~= part_list(path@).take(
                count - 1,
            ));
            count -= 1;
        }
    }

    fn find_text(&self, filter: &str) -> (found: Option<Vec<bool>>)
        ensures
            flags(found) == found_in(self@, lowercase(filter@)),
    {
        let lowered = filter.to_lowercase();
        if lowered.as_str().unicode_len() == 0 {
            return None;
        }
        let ghost list = self@;
        let mut found: Vec<bool> = Vec::new();
        let mut i: usize = 0;
        while i < self.entries.len()
            invariant
                i <= self.entries@.len() == list.len(),
                list == self@,
                found@.len() == i,
                forall|k: int|
                    0 <= k < i ==> #[trigger] found@[k] == holds(lowercase(list[k].path), lowered@),
            decreases self.entries@.len() - i,
        {
            assert(list[i as int] == self.entries@[i as int]@);
            let text = self.entries[i].path.to_lowercase();
            found.push(holds_text(text.as_str(), lowered.as_str()));
            i += 1;
        }
        assert(found@ =~= found_in(list, lowered@)->0);
        Some(found)
    }

    fn holds_entries(&self, index: usize) -> (result: bool)
        requires
            index < self@.len(),
        ensures
            result == has_children(self@, index as int),
    {
        proof {
            use_type_invariant(self);
        }
        let ghost list = self@;
        let mut c: usize = 1;
        while c < self.parents.len()
            invariant
                1 <= c,
                index < list.len(),
                list == self@,
                linked(list, self.parents@),
                forall|k: int| 0 < k < c && k < list.len() ==> !is_parent(list, index as int, k),
            decreases self.parents@.len() - c,
        {
            assert(is_parent(list, self.parents@[c as int] as int, c as int));
            if self.parents[c] == index {
                return true;
            }
            proof {
                if is_parent(list, index as int, c as int) {
                    let p = self.parents@[c as int] as int;
                    if p < index {
                        assert(parts(list[p].path) != parts(list[index as int].path));
                    } else {
                        assert(parts(list[index as int].path) != parts(list[p].path));
                    }
                }
            }
            c += 1;
        }
        false
    }
}

proof fn lemma_lists_id_front(list: Seq<Item>, indices: Seq<int>, id: u64)
    requires
        indices.len() > 0,
    ensures
        lists_id(list, indices, id) == (list[indices[0]].id == id || lists_id(
            list,
            indices.drop_first(),
            id,
        )),
{
    let rest = indices.drop_first();
    if lists_id(list, rest, id) {
        let k = choose|k: int| 0 <= k < rest.len() && list[#[trigger] rest[k]].id == id;
        assert(list[indices[k + 1]].id == id);
    }
    if lists_id(list, indices, id) && list[indices[0]].id != id {
        let k = choose|k: int| 0 <= k < indices.len() && list[#[trigger] indices[k]].id == id;
        assert(list[rest[k - 1]].id == id);
    }
}

impl FileTree {
    fn find_position(&self, indices: &Vec<usize>, id: ProjectEntryId) -> (place: Option<usize>)
        requires
            forall|k: int| 0 <= k < indices@.len() ==> #[trigger] indices@[k] < self@.len(),
        ensures
            place is Some == lists_id(self@, numbers(indices@), id.0),
            place matches Some(k) ==> k < indices@.len() && self@[indices@[k as int] as int].id
                == id.0,
            (match place {
                Some(k) => k as int,
                None => 0,
            }) == position_of(self@, numbers(indices@), id.0),
    {
        let ghost list = self@;
        let ghost all = numbers(indices@);
        let ghost listed = lists_id(list, all, id.0);
        let mut k: usize = 0;
        assert(all.skip(0) =~= all);
        while k < indices.len()
            invariant
                k <= indices@.len(),
                forall|k: int| 0 <= k < indices@.len() ==> #[trigger] indices@[k] < self@.len(),
                list == self@,
                all == numbers(indices@),
                listed == lists_id(list, all, id.0),
                listed == lists_id(list, all.skip(k as int), id.0),
                listed ==> position_of(list, all, id.0) == k + position_of(
                    list,
                    all.skip(k as int),
                    id.0,
                ),
            decreases indices@.len() - k,
        {
            let ghost rest = all.skip(k as int);
            proof {
                assert(rest.drop_first() =~= all.skip(k + 1));
                lemma_lists_id_front(list, rest, id.0);
                assert(rest[0] == indices@[k as int]);
                assert(list[rest[0]] == self.entries@[rest[0]]@);
            }
            if self.entries[indices[k]].id.0 == id.0 {
                return Some(k);
            }
            k += 1;
        }
        None
    }

    /// Selects an entry of those that are shown: the one selected before where
    /// it is among them, else the first that is searched for, else the first.
    fn settle_selection(
        &self,
        visible: &Vec<usize>,
        found: &Option<Vec<bool>>,
        selected: ProjectEntryId,
    ) -> (result: ProjectEntryId)
        requires
            forall|k: int| 0 <= k < visible@.len() ==> #[trigger] visible@[k] < self@.len(),
            *found matches Some(found) ==> found@.len() == self@.len(),
        ensures
            result.0 == settled(self@, numbers(visible@), flags(*found), selected.0),
    {
        proof {
            use_type_invariant(self);
        }
        match self.find_position(visible, selected) {
            Some(_) => {
                return selected;
            },
            None => {},
        }
        match self.first_found_entry(visible, found) {
            Some(i) => {
                assert(self@[i as int] == self.entries@[i as int]@);
                self.entries[i].id
            },
            None => if visible.len() > 0 {
                assert(numbers(visible@)[0] == visible@[0]);
                assert(self@[visible@[0] as int] == self.entries@[visible@[0] as int]@);
                self.entries[visible[0]].id
            } else {
                assert(self@[0] == self.entries@[0]@);
                self.entries[0].id
            },
        }
    }

    fn first_found_entry(&self, visible: &Vec<usize>, found: &Option<Vec<bool>>) -> (index: Option<
        usize,
    >)
        requires
            forall|k: int| 0 <= k < visible@.len() ==> #[trigger] visible@[k] < self@.len(),
            *found matches Some(found) ==> found@.len() == self@.len(),
        ensures
            match index {
                Some(i) => i < self@.len() && first_found(numbers(visible@), flags(*found)) == Some(
                    i as int,
                ),
                None => first_found(numbers(visible@), flags(*found)) is None,
            },
    {
        let ghost all = numbers(visible@);
        match found {
            None => None,
            Some(marks) => {
                let mut k: usize = 0;
                assert(all.skip(0) =~= all);
                while k < visible.len()
                    invariant
                        k <= visible@.len(),
                        forall|k: int|
                            0 <= k < visible@.len() ==> #[trigger] visible@[k] < self@.len(),
                        marks@.len() == self@.len(),
                        flags(*found) == Some(marks@),
                        all == numbers(visible@),
                        first_found(all, Some(marks@)) == first_found(
                            all.skip(k as int),
                            Some(marks@),
                        ),
                    decreases visible@.len() - k,
                {
                    assert(all.skip(k as int)[0] == visible@[k as int]);
                    assert(all.skip(k as int).drop_first() =~= all.skip(k + 1));
                    if marks[visible[k]] {
                        return Some(visible[k]);
                    }
                    k += 1;
                }
                None
            },
        }
    }
}

/// The project panel.
#[derive(Debug)]
pub struct ProjectPanelState {
    generation: u64,
    files: FileTree,
    expanded: BTreeSet<u64>,
    selected: ProjectEntryId,
    filter: String,
    show_ignored: bool,
    show_hidden: bool,
}

impl View for ProjectPanelState {
    type V = Files;

    closed spec fn view(&self) -> Files {
        Files {
            generation: self.generation,
            items: self.files@,
            expanded: self.expanded@,
            selected: self.selected.0,
            filter: self.filter@,
            show_ignored: self.show_ignored,
            show_hidden: self.show_hidden,
        }
    }
}

impl ProjectPanelState {
    pub fn new(snapshot: PanelSnapshot) -> (result: Result<Self, PanelError>)
        ensures
            refusal(result) == (if snapshot.generation == 0 {
                Some(PanelFault::InitialSnapshotIsStale)
            } else {
                snapshot_fault(items_of(snapshot.entries@))
            }),
            result matches Ok(panel) ==> {
                &&& tree(panel@.items)
                &&& same_items(panel@.items, items_of(snapshot.entries@))
                &&& panel@ == Files::opened(snapshot.generation, panel@.items)
            },
    {
        if snapshot.generation == 0 {
            return Err(PanelError::InitialSnapshotIsStale);
        }
        let files = match FileTree::build(snapshot.entries) {
            Ok(files) => files,
            Err(error) => {
                return Err(error);
            },
        };
        let root = files.root_id();
        let mut expanded: BTreeSet<u64> = BTreeSet::new();
        expanded.insert(root.0);
        proof {
            lemma_index_of(files@, 0);
            assert(expanded@ =~= set![files@[0].id]);
        }
        let first = ProjectEntryId(0);
        let selected = match files.find_id(first) {
            Some(_) => first,
            None => root,
        };
        let mut panel = ProjectPanelState {
            generation: snapshot.generation,
            files,
            expanded,
            selected,
            filter: String::new(),
            show_ignored: false,
            show_hidden: false,
        };
        assert(panel.filter@ =~= Seq::<char>::empty());
        panel.ensure_selected_visible();
        Ok(panel)
    }

    pub fn generation(&self) -> (generation: u64)
        ensures
            generation == self@.generation,
    {
        self.generation
    }

    pub fn selected_entry(&self) -> (entry: &PanelEntry)
        ensures
            entry@ == self@.items[self@.selected_index()],
    {
        match self.files.find_id(self.selected) {
            Some(i) => self.files.entry_at(i),
            None => self.files.entry_at(0),
        }
    }

    pub fn entry(&self, id: ProjectEntryId) -> (entry: Option<&PanelEntry>)
        ensures
            entry is Some == index_of(self@.items, id.0) is Some,
            entry matches Some(entry) ==> entry@ == self@.items[index_of(self@.items, id.0)->0],
    {
        match self.files.find_id(id) {
            Some(i) => Some(self.files.entry_at(i)),
            None => None,
        }
    }

    pub fn filter(&self) -> (filter: &str)
        ensures
            filter@ == self@.filter,
    {
        self.filter.as_str()
    }

    pub fn show_ignored(&self) -> (show: bool)
        ensures
            show == self@.show_ignored,
    {
        self.show_ignored
    }

    pub fn show_hidden(&self) -> (show: bool)
        ensures
            show == self@.show_hidden,
    {
        self.show_hidden
    }

    pub fn is_expanded(&self, id: ProjectEntryId) -> (expanded: bool)
        ensures
            expanded == self@.expanded.contains(id.0),
    {
        self.expanded.contains(&id.0)
    }

    /// The number of entries.
    pub fn entry_count(&self) -> (count: usize)
        ensures
            count == self@.items.len(),
    {
        self.files.entries.len()
    }

    /// Takes a newer snapshot. The answer tells whether it was taken.
    pub fn apply_snapshot(&mut self, snapshot: PanelSnapshot) -> (result: Result<bool, PanelError>)
        ensures
            snapshot.generation <= old(self)@.generation ==> result == Ok::<bool, PanelError>(false)
                && final(self)@ == old(self)@,
            snapshot.generation > old(self)@.generation ==> {
                &&& refusal(result) == snapshot_fault(items_of(snapshot.entries@))
                &&& result is Err ==> final(self)@ == old(self)@
                &&& result is Ok ==> {
                    &&& result->Ok_0
                    &&& tree(final(self)@.items)
                    &&& same_items(final(self)@.items, items_of(snapshot.entries@))
                    &&& final(self)@ == old(self)@.refreshed(
                        snapshot.generation,
                        final(self)@.items,
                    )
                }
            },
    {
        if snapshot.generation <= self.generation {
            return Ok(false);
        }
        let files = match FileTree::build(snapshot.entries) {
            Ok(files) => files,
            Err(error) => {
                return Err(error);
            },
        };
        let ghost before = self@;
        let ghost items = files@;
        let root = files.root_id();
        let expanded = files.expanded_directories(&self.expanded, root);
        proof {
            lemma_index_of(items, before.selected);
        }
        let selected = match files.find_id(self.selected) {
            Some(_) => self.selected,
            None => match self.files.find_id(self.selected) {
                Some(i) => {
                    let path = self.files.entry_at(i).path.as_str();
                    files.nearest_existing_ancestor(&components(path))
                },
                None => root,
            },
        };
        self.generation = snapshot.generation;
        self.files = files;
        self.expanded = expanded;
        self.selected = selected;
        self.ensure_selected_visible();
        Ok(true)
    }

    pub fn set_filter(&mut self, filter: String) -> (result: Result<(), PanelError>)
        ensures
            if utf8_len(filter@) > MAX_FILTER_BYTES {
                refusal(result) == Some(PanelFault::FilterTooLarge) && final(self)@ == old(self)@
            } else {
                result is Ok && final(self)@ == old(self)@.filtered(filter@)
            },
    {
        if byte_len(filter.as_str()) > MAX_FILTER_BYTES {
            return Err(PanelError::FilterTooLarge);
        }
        let ghost next = (Files { filter: filter@, ..self@ }).settle();
        self.filter = filter;
        self.ensure_selected_visible();
        let found = self.files.find_text(self.filter.as_str());
        let current: usize = match self.files.find_id(self.selected) {
            Some(i) => i,
            None => 0,
        };
        proof {
            use_type_invariant(&self.files);
        }
        let off = match &found {
            Some(found) => !found[current],
            None => false,
        };
        if off {
            let visible = self.visible_indices();
            match self.files.first_found_entry(&visible, &found) {
                Some(i) => {
                    self.selected = self.files.entry_at(i).id;
                },
                None => {},
            }
        }
        Ok(())
    }

    pub fn set_show_ignored(&mut self, visible: bool)
        ensures
            final(self)@ == (Files { show_ignored: visible, ..old(self)@ }).settle(),
    {
        self.show_ignored = visible;
        self.ensure_selected_visible();
    }

    pub fn set_show_hidden(&mut self, visible: bool)
        ensures
            final(self)@ == (Files { show_hidden: visible, ..old(self)@ }).settle(),
    {
        self.show_hidden = visible;
        self.ensure_selected_visible();
    }

    /// Expands a directory or closes it. The answer tells which; the root
    /// stays expanded.
    pub fn toggle_expanded(&mut self, id: ProjectEntryId) -> (result: Result<bool, PanelError>)
        ensures
            match index_of(old(self)@.items, id.0) {
                None => refusal(result) == Some(PanelFault::UnknownEntry(id.0)) && final(self)@
                    == old(self)@,
                Some(i) => if !old(self)@.items[i].directory {
                    refusal(result) == Some(PanelFault::FileCannotExpand) && final(self)@ == old(
                        self,
                    )@
                } else {
                    result == Ok::<bool, PanelError>(
                        id.0 == old(self)@.items[0].id || !old(self)@.expanded.contains(id.0),
                    ) && final(self)@ == old(self)@.toggled(id.0)
                },
            },
    {
        let index = match self.files.find_id(id) {
            Some(index) => index,
            None => {
                return Err(PanelError::UnknownEntry(id));
            },
        };
        if !self.files.entry_at(index).is_directory() {
            return Err(PanelError::FileCannotExpand);
        }
        if id.0 == self.files.root_id().0 {
            return Ok(true);
        }
        let ghost before = self@;
        let expanded = if self.expanded.remove(&id.0) {
            false
        } else {
            assert(self.expanded@ =~= before.expanded);
            self.expanded.insert(id.0);
            true
        };
        assert(self.expanded@ =~= if before.expanded.contains(id.0) {
            before.expanded.remove(id.0)
        } else {
            before.expanded.insert(id.0)
        });
        self.ensure_selected_visible();
        Ok(expanded)
    }

    /// Selects an entry that is shown.
    pub fn select(&mut self, id: ProjectEntryId) -> (result: Result<(), PanelError>)
        ensures
            if lists_id(old(self)@.items, old(self)@.visible(), id.0) {
                result is Ok && final(self)@ == (Files { selected: id.0, ..old(self)@ })
            } else {
                refusal(result) == Some(PanelFault::HiddenEntry) && final(self)@ == old(self)@
            },
    {
        let visible = self.visible_indices();
        match self.files.find_position(&visible, id) {
            Some(_) => {
                self.selected = id;
                Ok(())
            },
            None => Err(PanelError::HiddenEntry),
        }
    }

    /// Moves the selection over the shown entries. The answer tells whether
    /// it moved.
    pub fn move_selection(&mut self, delta: isize) -> (moved: bool)
        ensures
            final(self)@ == old(self)@.moved(delta as int),
            moved == (lists_id(old(self)@.items, old(self)@.visible(), old(self)@.selected) && old(
                self,
            )@.next_position(delta as int) != position_of(
                old(self)@.items,
                old(self)@.visible(),
                old(self)@.selected,
            )),
    {
        let visible = self.visible_indices();
        let ghost list = self@.visible();
        let index: usize = match self.files.find_position(&visible, self.selected) {
            Some(index) => index,
            None => {
                return false;
            },
        };
        let next: usize = step_by(index, delta, visible.len());
        assert(list[next as int] == visible@[next as int]);
        assert(list[index as int] == visible@[index as int]);
        if next == index {
            return false;
        }
        self.selected = self.files.entry_at(visible[next]).id;
        true
    }

    /// Expands what leads to a path and selects the entry there.
    pub fn reveal_path(&mut self, path: &str) -> (result: Result<ProjectEntryId, PanelError>)
        ensures
            match path_index(old(self)@.items, parts(path@)) {
                None => refusal(result) == Some(PanelFault::NotIndexed(path@)) && final(self)@
                    == old(self)@,
                Some(i) => result == Ok::<ProjectEntryId, PanelError>(
                    ProjectEntryId(old(self)@.items[i].id),
                ) && final(self)@ == old(self)@.revealed(i),
            },
    {
        let key = components(path);
        assert(part_list(key@).take(key@.len() as int) =~= part_list(key@));
        let index = match self.files.find_key(&key, key.len()) {
            Some(index) => index,
            None => {
                return Err(PanelError::NotIndexed(path.to_string()));
            },
        };
        let ghost before = self@;
        let id = self.files.entry_at(index).id;
        let above = self.files.entries_above(index);
        let ghost old_expanded = self.expanded@;
        let mut k: usize = 0;
        while k < above.len()
            invariant
                k <= above@.len(),
                self@ == (Files { expanded: self.expanded@, ..before }),
                forall|id: u64| #[trigger]
                    self.expanded@.contains(id) == (before.expanded.contains(id) || exists|n: int|
                        0 <= n < k && #[trigger] above@[n] == id),
            decreases above@.len() - k,
        {
            let ghost held = self.expanded@;
            self.expanded.insert(above[k]);
            proof {
                assert forall|id: u64| #[trigger]
                    self.expanded@.contains(id) == (before.expanded.contains(id) || exists|n: int|
                        0 <= n < k + 1 && #[trigger] above@[n] == id) by {
                    assert(held.contains(id) == (before.expanded.contains(id) || exists|n: int|
                        0 <= n < k && #[trigger] above@[n] == id));
                    if id == above@[k as int] {
                        assert(above@[k as int] == id);
                    }
                }
            }
            k += 1;
        }
        proof {
            assert(self.expanded@ =~= before.revealed(index as int).expanded) by {
                assert forall|id: u64|
                    self.expanded@.contains(id) == before.revealed(
                        index as int,
                    ).expanded.contains(id) by {
                    if exists|n: int| 0 <= n < above@.len() && #[trigger] above@[n] == id {
                        assert(above@.contains(id));
                    }
                    if above@.contains(id) {
                        let n = choose|n: int| 0 <= n < above@.len() && above@[n] == id;
                        assert(above@[n] == id);
                    }
                }
            }
        }
        self.selected = id;
        Ok(id)
    }

    /// The rows that fit, around the selected one.
    pub fn rows(&self, max_rows: usize) -> (rows: Vec<PanelRow>)
        ensures
            rows@ == self@.rows(max_rows as int),
    {
        let mut rows: Vec<PanelRow> = Vec::new();
        let visible = self.visible_indices();
        let ghost list = self@.visible();
        if visible.len() == 0 || max_rows == 0 {
            assert(rows@ =~= self@.rows(max_rows as int));
            return rows;
        }
        let place: usize = match self.files.find_position(&visible, self.selected) {
            Some(k) => k,
            None => 0,
        };
        let start: usize = centered_start(visible.len(), place, max_rows);
        proof {
            centered_window_shows_the_selection(list.len() as int, place as int, max_rows as int);
        }
        let end: usize = if max_rows < visible.len() - start {
            start + max_rows
        } else {
            visible.len()
        };
        let mut k: usize = start;
        while k < end
            invariant
                start <= k <= end <= visible@.len(),
                start == self@.first_row(max_rows as int),
                list == self@.visible(),
                list == numbers(visible@),
                forall|k: int| 0 <= k < visible@.len() ==> #[trigger] visible@[k] < self@.items.len(),
                rows@.len() == k - start,
                forall|n: int|
                    0 <= n < rows@.len() ==> #[trigger] rows@[n] == self@.row(list[start + n]),
            decreases end - k,
        {
            let index: usize = visible[k];
            assert(list[k as int] == index);
            let entry = self.files.entry_at(index);
            let depth: usize = self.files.depth_at(index);
            rows.push(
                PanelRow {
                    id: entry.id,
                    depth,
                    selected: entry.id.0 == self.selected.0,
                    expanded: self.expanded.contains(&entry.id.0),
                    has_children: self.files.holds_entries(index),
                },
            );
            k += 1;
        }
        assert(rows@ =~= self@.rows(max_rows as int));
        rows
    }

    /// The entry whose row the panel shows at a cell.
    pub fn entry_id_at(&self, area: Rect, position: Position) -> (id: Option<ProjectEntryId>)
        ensures
            id == ({
                let inner = Rect::spec_new(
                    coordinate(area.x + 1) as u16,
                    coordinate(area.y + 1) as u16,
                    above_zero(area.width - 2) as u16,
                    above_zero(area.height - 2) as u16,
                );
                let rows = self@.rows(inner.height as int);
                let row = position.y - inner.y;
                if inner.holds(position.x as int, position.y as int) && row < rows.len() {
                    Some(rows[row].id)
                } else {
                    None
                }
            }),
    {
        let inner = Rect::new(
            area.x.saturating_add(1),
            area.y.saturating_add(1),
            area.width.saturating_sub(2),
            area.height.saturating_sub(2),
        );
        if inner.is_empty() || !inner.contains(position) {
            return None;
        }
        let rows = self.rows(inner.height as usize);
        let row: usize = (position.y - inner.y) as usize;
        if row < rows.len() {
            Some(rows[row].id)
        } else {
            None
        }
    }

    fn visible_indices(&self) -> (result: Vec<usize>)
        ensures
            numbers(result@) == self@.visible(),
            forall|k: int| 0 <= k < result@.len() ==> #[trigger] result@[k] < self@.items.len(),
    {
        let found = self.files.find_text(self.filter.as_str());
        self.files.visible_entries(&self.expanded, &found, self.show_ignored, self.show_hidden)
    }

    fn ensure_selected_visible(&mut self)
        ensures
            final(self)@ == old(self)@.settle(),
    {
        let visible = self.visible_indices();
        let found = self.files.find_text(self.filter.as_str());
        self.selected = self.files.settle_selection(&visible, &found, self.selected);
    }
}

impl FileTree {
    fn root_id(&self) -> (id: ProjectEntryId)
        ensures
            id.0 == self@[0].id,
            self@.len() > 0,
    {
        proof {
            use_type_invariant(self);
        }
        assert(self@[0] == self.entries@[0]@);
        self.entries[0].id
    }

    fn entry_at(&self, index: usize) -> (entry: &PanelEntry)
        requires
            index == 0 || index < self@.len(),
        ensures
            entry@ == self@[index as int],
    {
        proof {
            use_type_invariant(self);
        }
        assert(self@[index as int] == self.entries@[index as int]@);
        &self.entries[index]
    }

    fn depth_at(&self, index: usize) -> (depth: usize)
        requires
            index < self@.len(),
        ensures
            depth == parts(self@[index as int].path).len(),
    {
        proof {
            use_type_invariant(self);
        }
        assert(part_list(self.keys@[index as int]@) == parts(self@[index as int].path));
        self.keys[index].len()
    }

    /// The expanded directories that are still there, and the root.
    fn expanded_directories(&self, expanded: &BTreeSet<u64>, root: ProjectEntryId) -> (result:
        BTreeSet<u64>)
        requires
            root.0 == self@[0].id,
        ensures
            result@ == Set::new(
                |id: u64|
                    id == self@[0].id || expanded@.contains(id) && index_of(self@, id) is Some
                        && self@[index_of(self@, id)->0].directory,
            ),
    {
        proof {
            use_type_invariant(self);
        }
        let ghost list = self@;
        let mut result: BTreeSet<u64> = BTreeSet::new();
        result.insert(root.0);
        let mut i: usize = 0;
        while i < self.entries.len()
            invariant
                i <= self.entries@.len() == list.len(),
                list == self@,
                distinct_items(list),
                root.0 == list[0].id,
                forall|id: u64| #[trigger]
                    result@.contains(id) == (id == list[0].id || expanded@.contains(id)
                        && exists|k: int|
                        0 <= k < i && (#[trigger] list[k]).id == id && list[k].directory),
            decreases self.entries@.len() - i,
        {
            let ghost held = result@;
            assert(list[i as int] == self.entries@[i as int]@);
            let id: u64 = self.entries[i].id.0;
            if self.entries[i].is_directory() && expanded.contains(&id) {
                result.insert(id);
            }
            proof {
                assert forall|id: u64| #[trigger]
                    result@.contains(id) == (id == list[0].id || expanded@.contains(id)
                        && exists|k: int|
                        0 <= k < i + 1 && (#[trigger] list[k]).id == id && list[k].directory) by {
                    assert(held.contains(id) == (id == list[0].id || expanded@.contains(id)
                        && exists|k: int|
                        0 <= k < i && (#[trigger] list[k]).id == id && list[k].directory));
                    if list[i as int].id == id && list[i as int].directory {
                        assert(list[i as int].id == id);
                    }
                }
            }
            i += 1;
        }
        proof {
            let expected = Set::new(
                |id: u64|
                    id == list[0].id || expanded@.contains(id) && index_of(list, id) is Some
                        && list[index_of(list, id)->0].directory,
            );
            assert forall|id: u64| result@.contains(id) == expected.contains(id) by {
                lemma_index_of(list, id);
                if exists|k: int|
                    0 <= k < list.len() && (#[trigger] list[k]).id == id && list[k].directory {
                    let k = choose|k: int|
                        0 <= k < list.len() && (#[trigger] list[k]).id == id && list[k].directory;
                    assert(has_id(list, id));
                    let m = index_of(list, id)->0;
                    if m < k {
                        assert(list[m].id != list[k].id);
                    } else if k < m {
                        assert(list[k].id != list[m].id);
                    }
                }
                if let Some(m) = index_of(list, id) {
                    assert(list[m].id == id);
                }
            }
            assert(result@ =~= expected);
        }
        result
    }

    /// The IDs of the directories that lead to an entry.
    fn entries_above(&self, index: usize) -> (result: Vec<u64>)
        requires
            index < self@.len(),
        ensures
            forall|id: u64| #[trigger]
                result@.contains(id) == exists|a: int|
                    #[trigger] on_path(self@, a, index as int) && self@[a].id == id,
    {
        proof {
            use_type_invariant(self);
        }
        let ghost list = self@;
        let ghost goal = index as int;
        let mut result: Vec<u64> = Vec::new();
        let mut at: usize = index;
        while at > 0
            invariant
                at <= index < list.len(),
                goal == index,
                list == self@,
                linked(list, self.parents@),
                forall|a: int| #[trigger]
                    on_path(list, a, goal) == (on_path(list, a, at as int) || exists|n: int|
                        0 <= n < result@.len() && is_step(list, a, #[trigger] result@[n], goal)),
                forall|n: int|
                    0 <= n < result@.len() ==> leads_to(list, #[trigger] result@[n], goal),
            decreases at,
        {
            let p: usize = self.parents[at];
            let ghost before = result@;
            assert(is_parent(list, p as int, at as int));
            assert(list[p as int] == self.entries@[p as int]@);
            result.push(self.entries[p].id.0);
            proof {
                let last = result@.len() - 1;
                lemma_through_parent(list, self.parents@, p as int, at as int);
                assert(on_path(list, p as int, goal));
                assert(is_step(list, p as int, result@[last], goal));
                assert forall|a: int| #[trigger] on_path(list, a, goal) == (on_path(
                    list,
                    a,
                    p as int,
                ) || exists|n: int|
                    0 <= n < result@.len() && is_step(list, a, #[trigger] result@[n], goal)) by {
                    if 0 <= a < list.len() {
                        lemma_through_parent(list, self.parents@, a, at as int);
                    }
                    if a == p {
                        assert(is_step(list, a, result@[last], goal));
                    }
                    if exists|n: int|
                        0 <= n < before.len() && is_step(list, a, #[trigger] before[n], goal) {
                        let n = choose|n: int|
                            0 <= n < before.len() && is_step(list, a, #[trigger] before[n], goal);
                        assert(is_step(list, a, result@[n], goal));
                    }
                }
                assert forall|n: int| 0 <= n < result@.len() implies leads_to(
                    list,
                    #[trigger] result@[n],
                    goal,
                ) by {
                    if n < before.len() {
                        assert(leads_to(list, before[n], goal));
                    } else {
                        assert(is_step(list, p as int, result@[n], goal));
                    }
                }
            }
            at = p;
        }
        proof {
            assert forall|id: u64| #[trigger] result@.contains(id) == exists|a: int|
                #[trigger] on_path(list, a, goal) && list[a].id == id by {
                if result@.contains(id) {
                    let n = choose|n: int| 0 <= n < result@.len() && result@[n] == id;
                    assert(leads_to(list, result@[n], goal));
                    let a = choose|a: int| is_step(list, a, result@[n], goal);
                    assert(on_path(list, a, goal) && list[a].id == id);
                }
                if exists|a: int| #[trigger] on_path(list, a, goal) && list[a].id == id {
                    let a = choose|a: int| #[trigger] on_path(list, a, goal) && list[a].id == id;
                    lemma_root_leads(list, a);
                    let n = choose|n: int|
                        0 <= n < result@.len() && is_step(list, a, #[trigger] result@[n], goal);
                    assert(result@[n] == id);
                }
            }
        }
        result
    }
}

/// Whether an ID is that of one of the directories that lead to an item.
spec fn leads_to(list: Seq<Item>, id: u64, goal: int) -> bool {
    exists|a: int| is_step(list, a, id, goal)
}

/// Whether an ID is that of a directory that leads to an item.
spec fn is_step(list: Seq<Item>, a: int, id: u64, goal: int) -> bool {
    on_path(list, a, goal) && list[a].id == id
}

/// What is done to a file or directory.
#[derive(Clone, Copy, Debug, PartialEq, Eq, Structural)]
pub enum MutationKind {
    CreateFile,
    CreateDirectory,
    Rename,
    Copy,
    Delete,
}

/// A change to the files of the project that was found to be in order.
#[derive(Clone, Debug, PartialEq, Eq)]
pub struct MutationPlan {
    pub kind: MutationKind,
    pub source: Option<String>,
    pub target: Option<String>,
    pub requires_confirmation: bool,
}

/// The plain values of a [`MutationPlan`].
pub struct Mutation {
    pub kind: MutationKind,
    pub source: Option<Seq<char>>,
    pub target: Option<Seq<char>>,
    pub requires_confirmation: bool,
}

impl View for MutationPlan {
    type V = Mutation;

    open spec fn view(&self) -> Mutation {
        Mutation {
            kind: self.kind,
            source: match self.source {
                Some(path) => Some(path@),
                None => None,
            },
            target: match self.target {
                Some(path) => Some(path@),
                None => None,
            },
            requires_confirmation: self.requires_confirmation,
        }
    }
}

/// What is wrong with a change that has a source or not, and a target or not.
pub open spec fn shape_fault(
    kind: MutationKind,
    source: Option<Seq<char>>,
    target: Option<Seq<char>>,
) -> Option<PanelFault> {
    match kind {
        MutationKind::CreateFile | MutationKind::CreateDirectory => if source is None
            && target is Some {
            None
        } else {
            Some(PanelFault::CreateNeedsOnlyATarget)
        },
        MutationKind::Rename | MutationKind::Copy => if source is None || target is None {
            Some(PanelFault::MoveNeedsBoth)
        } else if parts(source->0) == parts(target->0) {
            Some(PanelFault::SourceIsTarget)
        } else {
            None
        },
        MutationKind::Delete => if source is Some && target is None {
            None
        } else {
            Some(PanelFault::DeleteNeedsOnlyASource)
        },
    }
}

/// The text of an optional path.
pub open spec fn text_of(path: Option<&str>) -> Option<Seq<char>> {
    match path {
        Some(path) => Some(path@),
        None => None,
    }
}

/// Whether a change has the source and the target that it needs.
pub fn validate_mutation_shape(kind: MutationKind, source: Option<&str>, target: Option<&str>) -> (
    result: Result<(), PanelError>)
    ensures
        refusal(result) == shape_fault(kind, text_of(source), text_of(target)),
{
    match kind {
        MutationKind::CreateFile | MutationKind::CreateDirectory => if source.is_none()
            && target.is_some() {
            Ok(())
        } else {
            Err(PanelError::CreateNeedsOnlyATarget)
        },
        MutationKind::Rename | MutationKind::Copy => match (source, target) {
            (Some(source), Some(target)) => if same_path(
                &components(source),
                &components(target),
            ) {
                Err(PanelError::SourceIsTarget)
            } else {
                Ok(())
            },
            _ => Err(PanelError::MoveNeedsBoth),
        },
        MutationKind::Delete => if source.is_some() && target.is_none() {
            Ok(())
        } else {
            Err(PanelError::DeleteNeedsOnlyASource)
        },
    }
}

/// Whether a component is the directory of the project's history.
pub open spec fn metadata_part(part: Part) -> bool {
    part == Part::Normal(".git"@)
}

/// What is wrong with the path of a file that is to be changed.
pub open spec fn mutation_path_fault(path: Seq<char>) -> Option<PanelFault> {
    if path_fault(path, false) is Some {
        path_fault(path, false)
    } else if exists|k: int| 0 <= k < parts(path).len() && metadata_part(#[trigger] parts(path)[k]) {
        Some(PanelFault::MetadataPath)
    } else {
        None
    }
}

/// Whether the file at a path may be changed.
pub fn validate_mutation_relative_path(path: &str) -> (result: Result<(), PanelError>)
    ensures
        refusal(result) == mutation_path_fault(path@),
{
    let list = components(path);
    match validate_components(path, &list, false) {
        Ok(()) => {},
        Err(error) => {
            return Err(error);
        },
    }
    let ghost all = parts(path@);
    let mut k: usize = 0;
    while k < list.len()
        invariant
            k <= list@.len(),
            part_list(list@) == all,
            all == parts(path@),
            path_fault(path@, false) is None,
            forall|n: int| 0 <= n < k ==> !metadata_part(#[trigger] all[n]),
        decreases list@.len() - k,
    {
        assert(all[k as int] == list@[k as int]@);
        let metadata = match &list[k] {
            Component::Normal(name) => same_text(name.as_str(), ".git"),
            _ => false,
        };
        if metadata {
            assert(metadata_part(all[k as int]));
            return Err(PanelError::MetadataPath);
        }
        k += 1;
    }
    Ok(())
}

/// Whether an item stands beside a path under the same name, in any case.
pub open spec fn collides(item: Item, path: Seq<Part>) -> bool {
    let own = parts(item.path);
    let above = if own.len() == 0 {
        own
    } else {
        own.drop_last()
    };
    above == path.drop_last() && name_of(own) is Some && lowercase(name_of(own)->0) == lowercase(
        name_of(path)->0,
    )
}

/// What is wrong with a source among the items.
pub open spec fn source_fault(list: Seq<Item>, path: Seq<char>) -> Option<PanelFault> {
    if mutation_path_fault(path) is Some {
        mutation_path_fault(path)
    } else {
        match path_index(list, parts(path)) {
            None => Some(PanelFault::MissingSource(path)),
            Some(i) => if list[i].external || list[i].fifo {
                Some(PanelFault::OddSource)
            } else {
                None
            },
        }
    }
}

/// What is wrong with a target among the items.
pub open spec fn target_fault(list: Seq<Item>, path: Seq<char>) -> Option<PanelFault> {
    let key = parts(path);
    if mutation_path_fault(path) is Some {
        mutation_path_fault(path)
    } else if has_path(list, key) {
        Some(PanelFault::TargetExists)
    } else {
        match path_index(list, key.drop_last()) {
            None => Some(PanelFault::MissingTargetParent(parent_text(path))),
            Some(i) => if !list[i].directory {
                Some(PanelFault::TargetParentIsNoDirectory)
            } else if exists|k: int| 0 <= k < list.len() && collides(#[trigger] list[k], key) {
                Some(PanelFault::CaseFoldCollision)
            } else {
                None
            },
        }
    }
}

/// What is wrong with a change to the files of a remote project.
pub open spec fn remote_fault(
    list: Seq<Item>,
    kind: MutationKind,
    source: Option<Seq<char>>,
    target: Option<Seq<char>>,
    trusted: bool,
) -> Option<PanelFault> {
    if !trusted {
        Some(PanelFault::Untrusted)
    } else if source is Some && source_fault(list, source->0) is Some {
        source_fault(list, source->0)
    } else if target is Some && target_fault(list, target->0) is Some {
        target_fault(list, target->0)
    } else {
        shape_fault(kind, source, target)
    }
}

/// A change to the files beneath a directory.
pub open spec fn planned(
    root: Seq<char>,
    kind: MutationKind,
    source: Option<Seq<char>>,
    target: Option<Seq<char>>,
) -> Mutation {
    Mutation {
        kind,
        source: match source {
            Some(path) => Some(joined(root, path)),
            None => None,
        },
        target: match target {
            Some(path) => Some(joined(root, path)),
            None => None,
        },
        requires_confirmation: true,
    }
}

proof fn lemma_plain_parts(path: Seq<char>)
    requires
        path_fault(path, false) is None,
    ensures
        parts(path).len() > 0,
        name_of(parts(path)) is Some,
{
    lemma_path_has_parts(path);
    let all = parts(path);
    assert(plain_part(all[all.len() - 1], false));
}

impl FileTree {
    fn check_source(&self, path: &str) -> (result: Result<(), PanelError>)
        ensures
            refusal(result) == source_fault(self@, path@),
    {
        match validate_mutation_relative_path(path) {
            Ok(()) => {},
            Err(error) => {
                return Err(error);
            },
        }
        let key = components(path);
        assert(part_list(key@).take(key@.len() as int) =~= part_list(key@));
        match self.find_key(&key, key.len()) {
            None => Err(PanelError::MissingSource(path.to_string())),
            Some(i) => {
                let entry = self.entry_at(i);
                if entry.external || entry.fifo {
                    Err(PanelError::OddSource)
                } else {
                    Ok(())
                }
            },
        }
    }

    fn check_target(&self, path: &str) -> (result: Result<(), PanelError>)
        ensures
            refusal(result) == target_fault(self@, path@),
    {
        match validate_mutation_relative_path(path) {
            Ok(()) => {},
            Err(error) => {
                return Err(error);
            },
        }
        proof {
            use_type_invariant(self);
            lemma_plain_parts(path@);
        }
        let key = components(path);
        let ghost whole = parts(path@);
        proof {
            assert(whole.take(whole.len() as int) =~= whole);
            assert(whole.take(whole.len() - 1) =~= whole.drop_last());
            lemma_path_index(self@, whole);
        }
        if self.find_key(&key, key.len()).is_some() {
            return Err(PanelError::TargetExists);
        }
        let parent = match self.find_key(&key, key.len() - 1) {
            Some(parent) => parent,
            None => {
                return Err(PanelError::MissingTargetParent(parent_path(path)));
            },
        };
        if !self.entry_at(parent).is_directory() {
            return Err(PanelError::TargetParentIsNoDirectory);
        }
        let name = match file_name(&key) {
            Some(name) => name.to_lowercase(),
            None => {
                return Err(PanelError::TargetHasNoName);
            },
        };
        let ghost list = self@;
        let mut k: usize = 0;
        while k < self.entries.len()
            invariant
                k <= self.entries@.len() == list.len(),
                list == self@,
                keyed(self.keys@, list),
                part_list(key@) == whole,
                whole == parts(path@),
                whole.len() > 0,
                name_of(whole) is Some,
                name@ == lowercase(name_of(whole)->0),
                mutation_path_fault(path@) is None,
                !has_path(list, whole),
                path_index(list, whole.drop_last()) matches Some(i) && list[i].directory,
                forall|n: int| 0 <= n < k ==> !collides(#[trigger] list[n], whole),
            decreases self.entries@.len() - k,
        {
            let own = &self.keys[k];
            proof {
                assert(part_list(own@) == parts(list[k as int].path));
                if own@.len() > 0 {
                    assert(part_list(own@).take(own@.len() - 1) =~= part_list(own@).drop_last());
                    assert(whole.take(whole.len() - 1) =~= whole.drop_last());
                }
            }
            let beside = if own.len() == 0 {
                false
            } else {
                own.len() == key.len() && same_components(own, &key, key.len() - 1)
            };
            proof {
                if own@.len() > 0 && own@.len() != key@.len() {
                    assert(part_list(own@).drop_last().len() != whole.drop_last().len());
                }
            }
            if beside {
                if let Some(other) = file_name(own) {
                    let lowered = other.to_lowercase();
                    if same_text(lowered.as_str(), name.as_str()) {
                        assert(collides(list[k as int], whole));
                        return Err(PanelError::CaseFoldCollision);
                    }
                }
            }
            k += 1;
        }
        Ok(())
    }
}

impl ProjectPanelState {
    /// Plans a change to the files of a remote project, of which only this
    /// panel knows.
    pub fn plan_remote_mutation(
        &self,
        root: &str,
        kind: MutationKind,
        source_relative: Option<&str>,
        target_relative: Option<&str>,
        trusted: bool,
    ) -> (result: Result<MutationPlan, PanelError>)
        ensures
            refusal(result) == remote_fault(
                self@.items,
                kind,
                text_of(source_relative),
                text_of(target_relative),
                trusted,
            ),
            result matches Ok(plan) ==> plan@ == planned(
                root@,
                kind,
                text_of(source_relative),
                text_of(target_relative),
            ),
    {
        if !trusted {
            return Err(PanelError::Untrusted);
        }
        if let Some(path) = source_relative {
            match self.files.check_source(path) {
                Ok(()) => {},
                Err(error) => {
                    return Err(error);
                },
            }
        }
        if let Some(path) = target_relative {
            match self.files.check_target(path) {
                Ok(()) => {},
                Err(error) => {
                    return Err(error);
                },
            }
        }
        match validate_mutation_shape(kind, source_relative, target_relative) {
            Ok(()) => {},
            Err(error) => {
                return Err(error);
            },
        }
        let source = match source_relative {
            Some(path) => Some(join(root, path)),
            None => None,
        };
        let target = match target_relative {
            Some(path) => Some(join(root, path)),
            None => None,
        };
        Ok(MutationPlan { kind, source, target, requires_confirmation: true })
    }
}

impl PanelFault {
    /// The fault in words.
    pub open spec fn text(self) -> Seq<char> {
        match self {
            PanelFault::InitialSnapshotIsStale => "initial panel snapshot was stale"@,
            PanelFault::EntryCount => "project panel snapshot has an invalid entry count"@,
            PanelFault::PathIsAbsolute => "project entry path must be relative"@,
            PanelFault::PathIsEmpty => "project entry path must not be empty"@,
            PanelFault::OddComponent => "project entry path contains a non-normal component"@,
            PanelFault::DuplicateId => "duplicate project entry ID"@,
            PanelFault::DuplicatePath => "duplicate project entry path"@,
            PanelFault::RootIsNoDirectory => "project root entry is not a directory"@,
            PanelFault::RootCount => "project panel requires exactly one root entry"@,
            PanelFault::ParentIsNoDirectory => "entry parent is not a directory"@,
            PanelFault::FilterTooLarge => "project panel filter is too large"@,
            PanelFault::FileCannotExpand => "cannot expand a file entry"@,
            PanelFault::HiddenEntry => "cannot select a hidden project entry"@,
            PanelFault::Untrusted => "project mutation requires a trusted worktree"@,
            PanelFault::MetadataPath => "project metadata paths cannot be mutated"@,
            PanelFault::OddSource => "remote mutation source is not a regular worktree entry"@,
            PanelFault::TargetExists => "remote mutation target already exists"@,
            PanelFault::TargetParentIsNoDirectory => "remote mutation target parent is not a directory"@,
            PanelFault::TargetHasNoName => "remote mutation target has no filename"@,
            PanelFault::CaseFoldCollision => "remote mutation target has a case-fold collision"@,
            PanelFault::CreateNeedsOnlyATarget => "create requires only a target"@,
            PanelFault::MoveNeedsBoth => "rename/copy requires source and target"@,
            PanelFault::SourceIsTarget => "source and target are identical"@,
            PanelFault::DeleteNeedsOnlyASource => "delete requires only a source"@,
            PanelFault::NoExistingAncestor => "mutation target has no existing ancestor"@,
            PanelFault::SourceDoesNotExist => "mutation source does not exist"@,
            PanelFault::EscapesThroughSymlink => "mutation path escapes the worktree through a symlink"@,
            PanelFault::Escapes => "mutation path escapes the worktree"@,
            PanelFault::SourceIsSymlink => "project mutation source must not be a symlink"@,
            PanelFault::SourceIsSpecial => "project mutation source must be a regular file or directory"@,
            PanelFault::LocalTargetExists => "project mutation target already exists"@,
            PanelFault::LocalParentIsNoDirectory => "project mutation target parent is not a directory"@,
            PanelFault::LocalTargetHasNoName => "project mutation target has no filename"@,
            PanelFault::LocalCaseFoldCollision => "project mutation target has a case-fold collision"@,
            PanelFault::NoParent(path) => "entry "@ + path + " has no parent"@,
            PanelFault::NotIndexed(path) => "project path "@ + path + " is not indexed"@,
            PanelFault::MissingSource(path) => "remote mutation source does not exist: "@ + path,
            PanelFault::MissingTargetParent(path) => "remote mutation target parent does not exist: "@ + path,
            PanelFault::UnknownEntry(id) => "unknown project entry ProjectEntryId("@ + decimal(
                id as nat,
            ) + ")"@,
        }
    }
}

fn around(front: &str, path: &str, back: &str) -> (text: String)
    ensures
        text@ == front@ + path@ + back@,
{
    let mut text = front.to_string();
    text.append(path);
    text.append(back);
    text
}

impl PanelError {
    /// The error in words.
    pub fn message(&self) -> (message: String)
        ensures
            message@ == self@.text(),
    {
        proof {
            reveal_strlit("");
            assert(forall|s: Seq<char>| s + ""@ =~= s);
        }
        match self {
            PanelError::InitialSnapshotIsStale => "initial panel snapshot was stale".to_string(),
            PanelError::EntryCount => "project panel snapshot has an invalid entry count".to_string(),
            PanelError::PathIsAbsolute => "project entry path must be relative".to_string(),
            PanelError::PathIsEmpty => "project entry path must not be empty".to_string(),
            PanelError::OddComponent => "project entry path contains a non-normal component".to_string(),
            PanelError::DuplicateId => "duplicate project entry ID".to_string(),
            PanelError::DuplicatePath => "duplicate project entry path".to_string(),
            PanelError::RootIsNoDirectory => "project root entry is not a directory".to_string(),
            PanelError::RootCount => "project panel requires exactly one root entry".to_string(),
            PanelError::ParentIsNoDirectory => "entry parent is not a directory".to_string(),
            PanelError::FilterTooLarge => "project panel filter is too large".to_string(),
            PanelError::FileCannotExpand => "cannot expand a file entry".to_string(),
            PanelError::HiddenEntry => "cannot select a hidden project entry".to_string(),
            PanelError::Untrusted => "project mutation requires a trusted worktree".to_string(),
            PanelError::MetadataPath => "project metadata paths cannot be mutated".to_string(),
            PanelError::OddSource => "remote mutation source is not a regular worktree entry".to_string(),
            PanelError::TargetExists => "remote mutation target already exists".to_string(),
            PanelError::TargetParentIsNoDirectory => "remote mutation target parent is not a directory".to_string(),
            PanelError::TargetHasNoName => "remote mutation target has no filename".to_string(),
            PanelError::CaseFoldCollision => "remote mutation target has a case-fold collision".to_string(),
            PanelError::CreateNeedsOnlyATarget => "create requires only a target".to_string(),
            PanelError::MoveNeedsBoth => "rename/copy requires source and target".to_string(),
            PanelError::SourceIsTarget => "source and target are identical".to_string(),
            PanelError::DeleteNeedsOnlyASource => "delete requires only a source".to_string(),
            PanelError::NoExistingAncestor => "mutation target has no existing ancestor".to_string(),
            PanelError::SourceDoesNotExist => "mutation source does not exist".to_string(),
            PanelError::EscapesThroughSymlink => "mutation path escapes the worktree through a symlink".to_string(),
            PanelError::Escapes => "mutation path escapes the worktree".to_string(),
            PanelError::SourceIsSymlink => "project mutation source must not be a symlink".to_string(),
            PanelError::SourceIsSpecial => "project mutation source must be a regular file or directory".to_string(),
            PanelError::LocalTargetExists => "project mutation target already exists".to_string(),
            PanelError::LocalParentIsNoDirectory => "project mutation target parent is not a directory".to_string(),
            PanelError::LocalTargetHasNoName => "project mutation target has no filename".to_string(),
            PanelError::LocalCaseFoldCollision => "project mutation target has a case-fold collision".to_string(),
            PanelError::NoParent(path) => around("entry ", path.as_str(), " has no parent"),
            PanelError::NotIndexed(path) => around("project path ", path.as_str(), " is not indexed"),
            PanelError::MissingSource(path) => around("remote mutation source does not exist: ", path.as_str(), ""),
            PanelError::MissingTargetParent(path) => around("remote mutation target parent does not exist: ", path.as_str(), ""),
            PanelError::UnknownEntry(id) => {
                let mut text = "unknown project entry ProjectEntryId(".to_string();
                push_decimal(&mut text, id.0);
                text.append(")");
                text
            },
        }
    }
}

/// What kind of file stands at a path.
#[derive(Clone, Copy, Debug, PartialEq, Eq, Structural)]
pub enum FileKind {
    File,
    Directory,
    Symlink,
    Special,
}

/// What the file system tells of a path: the part of it that exists, with its
/// links resolved, and the names that follow, from the last one on.
#[derive(Clone, Debug, PartialEq, Eq)]
pub struct ResolvedPath {
    pub relative: String,
    pub existing: String,
    pub missing: Vec<String>,
}

/// What the file system tells of the source of a change.
#[derive(Clone, Debug, PartialEq, Eq)]
pub struct SourceFacts {
    pub path: ResolvedPath,
    pub kind: FileKind,
}

/// What the file system tells of the target of a change.
#[derive(Clone, Debug, PartialEq, Eq)]
pub struct TargetFacts {
    pub path: ResolvedPath,
    pub exists: bool,
    pub parent_is_directory: bool,
    pub siblings: Vec<String>,
}

/// A directory with names after it, of which the first is the last of the
/// list.
pub open spec fn extended(base: Seq<char>, names: Seq<Seq<char>>) -> Seq<char>
    decreases names.len(),
{
    if names.len() == 0 {
        base
    } else {
        extended(joined(base, names.last()), names.drop_last())
    }
}

/// What is wrong with a path once its links are resolved.
pub open spec fn resolve_fault(
    root: Seq<char>,
    relative: Seq<char>,
    existing: Seq<char>,
    missing: Seq<Seq<char>>,
    must_exist: bool,
) -> Option<PanelFault> {
    if mutation_path_fault(relative) is Some {
        mutation_path_fault(relative)
    } else if must_exist && missing.len() > 0 {
        Some(PanelFault::SourceDoesNotExist)
    } else if !beneath(parts(existing), parts(root)) {
        Some(PanelFault::EscapesThroughSymlink)
    } else if !beneath(parts(extended(existing, missing)), parts(root)) {
        Some(PanelFault::Escapes)
    } else {
        None
    }
}

/// One step from a path that does not exist towards one that does: the
/// directory that holds it, and the name in that directory. A path without a
/// name at its end leads no further.
pub fn step_up(path: &str) -> (result: Result<(String, String), PanelError>)
    ensures
        match (directory_of(path@), name_of(parts(path@))) {
            (Some(above), Some(name)) => result is Ok && result->Ok_0.0@ == above
                && result->Ok_0.1@ == name,
            _ => refusal(result) == Some(PanelFault::NoExistingAncestor),
        },
{
    match (directory(path), file_name(&components(path))) {
        (Some(above), Some(name)) => Ok((above, name)),
        _ => Err(PanelError::NoExistingAncestor),
    }
}

/// Where a path leads, if that is beneath the root.
pub fn resolve_beneath(root: &str, path: &ResolvedPath, must_exist: bool) -> (result: Result<
    String,
    PanelError,
>)
    ensures
        refusal(result) == resolve_fault(
            root@,
            path.relative@,
            path.existing@,
            texts(path.missing@),
            must_exist,
        ),
        result matches Ok(resolved) ==> resolved@ == extended(
            path.existing@,
            texts(path.missing@),
        ),
{
    match validate_mutation_relative_path(path.relative.as_str()) {
        Ok(()) => {},
        Err(error) => {
            return Err(error);
        },
    }
    if must_exist && path.missing.len() > 0 {
        return Err(PanelError::SourceDoesNotExist);
    }
    if !path_starts_with(path.existing.as_str(), root) {
        return Err(PanelError::EscapesThroughSymlink);
    }
    let ghost names = texts(path.missing@);
    let mut resolved = path.existing.clone();
    let mut count: usize = path.missing.len();
    assert(names.take(count as int) =~= names);
    while count > 0
        invariant
            count <= path.missing@.len(),
            names == texts(path.missing@),
            extended(path.existing@, names) == extended(resolved@, names.take(count as int)),
        decreases count,
    {
        assert(names.take(count as int).drop_last() =~= names.take(count - 1));
        assert(names.take(count as int).last() == path.missing@[count - 1]@);
        count -= 1;
        resolved = join(resolved.as_str(), path.missing[count].as_str());
    }
    assert(names.take(0) =~= Seq::<Seq<char>>::empty());
    if !path_starts_with(resolved.as_str(), root) {
        return Err(PanelError::Escapes);
    }
    Ok(resolved)
}

/// Whether one of the names is the same as another, in any case.
pub open spec fn folds_onto(siblings: Seq<Seq<char>>, name: Seq<char>) -> bool {
    exists|k: int| 0 <= k < siblings.len() && lowercase(#[trigger] siblings[k]) == lowercase(name)
}

/// What is wrong with the target of a change beside what is there.
pub open spec fn local_target_fault(
    relative: Seq<char>,
    exists_already: bool,
    parent_is_directory: bool,
    siblings: Seq<Seq<char>>,
) -> Option<PanelFault> {
    if exists_already {
        Some(PanelFault::LocalTargetExists)
    } else if !parent_is_directory {
        Some(PanelFault::LocalParentIsNoDirectory)
    } else {
        match name_of(parts(relative)) {
            None => Some(PanelFault::LocalTargetHasNoName),
            Some(name) => if folds_onto(siblings, name) {
                Some(PanelFault::LocalCaseFoldCollision)
            } else {
                None
            },
        }
    }
}

fn check_local_target(target: &TargetFacts) -> (result: Result<(), PanelError>)
    ensures
        refusal(result) == local_target_fault(
            target.path.relative@,
            target.exists,
            target.parent_is_directory,
            texts(target.siblings@),
        ),
{
    if target.exists {
        return Err(PanelError::LocalTargetExists);
    }
    if !target.parent_is_directory {
        return Err(PanelError::LocalParentIsNoDirectory);
    }
    let key = components(target.path.relative.as_str());
    let name = match file_name(&key) {
        Some(name) => name,
        None => {
            return Err(PanelError::LocalTargetHasNoName);
        },
    };
    let folded = name.to_lowercase();
    let ghost siblings = texts(target.siblings@);
    let mut k: usize = 0;
    while k < target.siblings.len()
        invariant
            k <= target.siblings@.len(),
            siblings == texts(target.siblings@),
            folded@ == lowercase(name@),
            name_of(parts(target.path.relative@)) == Some(name@),
            !target.exists,
            target.parent_is_directory,
            forall|n: int| 0 <= n < k ==> lowercase(#[trigger] siblings[n]) != lowercase(name@),
        decreases target.siblings@.len() - k,
    {
        assert(siblings[k as int] == target.siblings@[k as int]@);
        let other = target.siblings[k].to_lowercase();
        if same_text(other.as_str(), folded.as_str()) {
            return Err(PanelError::LocalCaseFoldCollision);
        }
        k += 1;
    }
    Ok(())
}

/// What is wrong with a change to the files beneath a directory.
pub open spec fn local_fault(
    root: Seq<char>,
    kind: MutationKind,
    source: Option<SourceFacts>,
    target: Option<TargetFacts>,
    trusted: bool,
) -> Option<PanelFault> {
    let source_resolved = match source {
        Some(facts) => resolve_fault(
            root,
            facts.path.relative@,
            facts.path.existing@,
            texts(facts.path.missing@),
            true,
        ),
        None => None,
    };
    let target_resolved = match target {
        Some(facts) => resolve_fault(
            root,
            facts.path.relative@,
            facts.path.existing@,
            texts(facts.path.missing@),
            false,
        ),
        None => None,
    };
    let target_place = match target {
        Some(facts) => local_target_fault(
            facts.path.relative@,
            facts.exists,
            facts.parent_is_directory,
            texts(facts.siblings@),
        ),
        None => None,
    };
    if !trusted {
        Some(PanelFault::Untrusted)
    } else if source_resolved is Some {
        source_resolved
    } else if target_resolved is Some {
        target_resolved
    } else if source is Some && source->0.kind == FileKind::Symlink {
        Some(PanelFault::SourceIsSymlink)
    } else if source is Some && source->0.kind == FileKind::Special {
        Some(PanelFault::SourceIsSpecial)
    } else if target_place is Some {
        target_place
    } else {
        shape_fault(kind, relative_source(source), relative_target(target))
    }
}

pub open spec fn relative_source(source: Option<SourceFacts>) -> Option<Seq<char>> {
    match source {
        Some(facts) => Some(facts.path.relative@),
        None => None,
    }
}

pub open spec fn relative_target(target: Option<TargetFacts>) -> Option<Seq<char>> {
    match target {
        Some(facts) => Some(facts.path.relative@),
        None => None,
    }
}

/// Plans a change to the files beneath a directory from what the file system
/// tells of its paths.
pub fn plan_mutation(
    root: &str,
    kind: MutationKind,
    source: &Option<SourceFacts>,
    target: &Option<TargetFacts>,
    trusted: bool,
) -> (result: Result<MutationPlan, PanelError>)
    ensures
        refusal(result) == local_fault(root@, kind, *source, *target, trusted),
        result matches Ok(plan) ==> plan@ == (Mutation {
            kind,
            source: match *source {
                Some(facts) => Some(extended(facts.path.existing@, texts(facts.path.missing@))),
                None => None,
            },
            target: match *target {
                Some(facts) => Some(extended(facts.path.existing@, texts(facts.path.missing@))),
                None => None,
            },
            requires_confirmation: true,
        }),
{
    if !trusted {
        return Err(PanelError::Untrusted);
    }
    let from = match source {
        Some(facts) => match resolve_beneath(root, &facts.path, true) {
            Ok(path) => Some(path),
            Err(error) => {
                return Err(error);
            },
        },
        None => None,
    };
    let to = match target {
        Some(facts) => match resolve_beneath(root, &facts.path, false) {
            Ok(path) => Some(path),
            Err(error) => {
                return Err(error);
            },
        },
        None => None,
    };
    if let Some(facts) = source {
        match facts.kind {
            FileKind::Symlink => {
                return Err(PanelError::SourceIsSymlink);
            },
            FileKind::Special => {
                return Err(PanelError::SourceIsSpecial);
            },
            _ => {},
        }
    }
    if let Some(facts) = target {
        match check_local_target(facts) {
            Ok(()) => {},
            Err(error) => {
                return Err(error);
            },
        }
    }
    let source_path = match source {
        Some(facts) => Some(facts.path.relative.as_str()),
        None => None,
    };
    let target_path = match target {
        Some(facts) => Some(facts.path.relative.as_str()),
        None => None,
    };
    match validate_mutation_shape(kind, source_path, target_path) {
        Ok(()) => {},
        Err(error) => {
            return Err(error);
        },
    }
    Ok(MutationPlan { kind, source: from, target: to, requires_confirmation: true })
}

/// The mark before an entry.
pub open spec fn marker(item: Item, row: PanelRow) -> Seq<char> {
    if !item.directory {
        " "@
    } else if row.expanded {
        "\u{25be}"@
    } else if row.has_children {
        "\u{25b8}"@
    } else {
        "\u{b7}"@
    }
}

/// A word behind the name of an entry, where it applies.
pub open spec fn note(applies: bool, word: Seq<char>) -> Seq<char> {
    if applies {
        word
    } else {
        Seq::empty()
    }
}

/// What is told of an entry behind its name.
pub open spec fn notes(item: Item) -> Seq<char> {
    note(item.private, " [private]"@) + note(item.ignored, " [ignored]"@) + note(
        item.hidden,
        " [hidden]"@,
    ) + note(item.external, " [external]"@) + note(item.fifo, " [special]"@)
}

/// The name of an entry; that of the root is a dot.
pub open spec fn shown_name(item: Item) -> Seq<char> {
    match name_of(parts(item.path)) {
        Some(name) => name,
        None => "."@,
    }
}

/// The text of a row.
pub open spec fn row_text(item: Item, row: PanelRow) -> Seq<char> {
    indent(row.depth as int) + marker(item, row) + " "@ + shown_name(item) + notes(item)
}

/// A row as it is drawn.
pub open spec fn drawn_row(item: Item, row: PanelRow) -> (Seq<Seq<Seq<char>>>, StyleParts) {
    (
        plain_lines(row_text(item, row)),
        if row.selected {
            with_modifiers(no_parts(), REVERSED)
        } else {
            no_parts()
        },
    )
}

/// Rows as they are drawn; those of entries that are gone are left out.
pub open spec fn drawn_rows(list: Seq<Item>, rows: Seq<PanelRow>) -> Seq<
    (Seq<Seq<Seq<char>>>, StyleParts),
>
    decreases rows.len(),
{
    if rows.len() == 0 {
        Seq::empty()
    } else {
        let front = drawn_rows(list, rows.drop_last());
        match index_of(list, rows.last().id.0) {
            Some(i) => front.push(drawn_row(list[i], rows.last())),
            None => front,
        }
    }
}

impl Files {
    /// The title over the panel.
    pub open spec fn heading(self) -> Seq<char> {
        " Project"@ + note(self.filter.len() > 0, " /"@ + self.filter) + note(
            self.show_ignored,
            " +ignored"@,
        ) + note(self.show_hidden, " +hidden"@) + " "@
    }

    /// What the panel draws.
    pub open spec fn strokes(self, area: Rect) -> Seq<Stroke> {
        let inner = area.spec_inside_border();
        let frame = seq![
            Stroke::Clear { area },
            Stroke::Frame {
                area,
                title: self.heading(),
                style: no_parts(),
                border: no_parts(),
            },
        ];
        if area.spec_is_empty() {
            Seq::empty()
        } else if inner.spec_is_empty() {
            frame
        } else {
            frame.push(
                Stroke::List {
                    area: inner,
                    rows: drawn_rows(self.items, self.rows(inner.height as int)),
                },
            )
        }
    }
}

fn append_note(text: &mut String, applies: bool, word: &str)
    ensures
        final(text)@ == old(text)@ + note(applies, word@),
{
    if applies {
        text.append(word);
    } else {
        assert(old(text)@ + Seq::<char>::empty() =~= old(text)@);
    }
}

fn notes_text(entry: &PanelEntry) -> (text: String)
    ensures
        text@ == notes(entry@),
{
    let mut text = String::new();
    append_note(&mut text, entry.private, " [private]");
    assert(text@ =~= note(entry@.private, " [private]"@));
    append_note(&mut text, entry.ignored, " [ignored]");
    append_note(&mut text, entry.hidden, " [hidden]");
    append_note(&mut text, entry.external, " [external]");
    append_note(&mut text, entry.fifo, " [special]");
    text
}

fn entry_text(entry: &PanelEntry, row: &PanelRow) -> (text: String)
    ensures
        text@ == row_text(entry@, *row),
{
    let mark = if entry.is_directory() {
        if row.expanded {
            "\u{25be}"
        } else if row.has_children {
            "\u{25b8}"
        } else {
            "\u{b7}"
        }
    } else {
        " "
    };
    let mut text = indentation(row.depth);
    text.append(mark);
    text.append(" ");
    let key = components(entry.path.as_str());
    match file_name(&key) {
        Some(name) => text.append(name.as_str()),
        None => text.append("."),
    }
    text.append(notes_text(entry).as_str());
    text
}

/// Draws a project panel.
pub struct ProjectPanelWidget<'a> {
    panel: &'a ProjectPanelState,
}

impl<'a> ProjectPanelWidget<'a> {
    /// The panel that is drawn.
    pub closed spec fn files(self) -> Files {
        self.panel@
    }

    pub fn new(panel: &'a ProjectPanelState) -> (widget: Self)
        ensures
            widget.files() == panel@,
    {
        ProjectPanelWidget { panel }
    }

    fn title(&self) -> (title: String)
        ensures
            title@ == self.files().heading(),
    {
        let panel = self.panel;
        let mut title = " Project".to_string();
        let ghost front = title@;
        if panel.filter.as_str().unicode_len() > 0 {
            title.append(" /");
            title.append(panel.filter.as_str());
            assert(title@ =~= front + (" /"@ + panel@.filter));
        }
        assert(title@ =~= front + note(panel@.filter.len() > 0, " /"@ + panel@.filter));
        let ghost front = title@;
        if panel.show_ignored {
            title.append(" +ignored");
        }
        assert(title@ =~= front + note(panel@.show_ignored, " +ignored"@));
        let ghost front = title@;
        if panel.show_hidden {
            title.append(" +hidden");
        }
        assert(title@ =~= front + note(panel@.show_hidden, " +hidden"@));
        title.append(" ");
        title
    }

    fn items(&self, max_rows: usize) -> (items: Vec<StyledRow>)
        ensures
            row_views(items@) == drawn_rows(self.files().items, self.files().rows(max_rows as int)),
    {
        let rows = self.panel.rows(max_rows);
        let ghost list = self.files().items;
        let mut items: Vec<StyledRow> = Vec::new();
        let mut k: usize = 0;
        assert(rows@.take(0) =~= Seq::<PanelRow>::empty());
        assert(row_views(items@) =~= drawn_rows(list, rows@.take(0)));
        while k < rows.len()
            invariant
                k <= rows@.len(),
                list == self.files().items,
                row_views(items@) == drawn_rows(list, rows@.take(k as int)),
            decreases rows@.len() - k,
        {
            let row = &rows[k];
            let ghost before = items@;
            proof {
                assert(rows@.take(k + 1).drop_last() =~= rows@.take(k as int));
                assert(rows@.take(k + 1).last() == *row);
            }
            if let Some(entry) = self.panel.entry(row.id) {
                let text = entry_text(entry, row);
                let style = if row.selected {
                    add_modifiers(plain_style(), REVERSED)
                } else {
                    plain_style()
                };
                items.push(text_row(text.as_str(), style));
                assert(row_views(items@) =~= row_views(before).push(drawn_row(entry@, *row)));
            }
            k += 1;
        }
        assert(rows@.take(k as int) =~= rows@);
        items
    }

    /// Draws the panel on the buffer.
    pub fn render(self, area: Rect, buffer: &mut Buffer)
        requires
            area.x + area.width <= u16::MAX,
            area.y + area.height <= u16::MAX,
        ensures
            buffer_area(*final(buffer)) == buffer_area(*old(buffer)),
            buffer_cells(*final(buffer)) == drawn(
                buffer_cells(*old(buffer)),
                buffer_area(*old(buffer)),
                self.files().strokes(area),
            ),
    {
        let mut list: Vec<Paint> = Vec::new();
        if !area.is_empty() {
            list.push(Paint::Clear { area });
            let title = self.title();
            list.push(Paint::Frame { area, title, style: plain_style(), border: plain_style() });
            let inner = area.inside_border();
            if !inner.is_empty() {
                let items = self.items(inner.height as usize);
                list.push(Paint::List { area: inner, rows: items });
            }
        }
        assert(strokes(list@) =~= self.files().strokes(area));
        paint(buffer, &list);
    }
}

impl Files {
    /// What holds of every panel: its items are a tree, its filter is not too
    /// large, only directories are expanded, the root always is, and the
    /// selection is one of the items.
    pub open spec fn valid(self) -> bool {
        &&& tree(self.items)
        &&& utf8_len(self.filter) <= MAX_FILTER_BYTES
        &&& self.expanded.contains(self.items[0].id)
        &&& forall|id: u64| #[trigger]
            self.expanded.contains(id) ==> index_of(self.items, id) is Some
                && self.items[index_of(self.items, id)->0].directory
        &&& has_id(self.items, self.selected)
    }
}

proof fn lemma_visible(files: Files)
    ensures
        forall|k: int|
            0 <= k < files.visible().len() ==> 0 <= #[trigger] files.visible()[k]
                < files.items.len(),
{
    let show = Shown { ignored: files.show_ignored, hidden: files.show_hidden };
    lemma_kept(
        0,
        files.items.len() as int,
        shown(files.items, files.expanded, show, files.found()),
    );
}

proof fn lemma_first_found(indices: Seq<int>, found: Option<Seq<bool>>)
    ensures
        first_found(indices, found) matches Some(i) ==> indices.contains(i) && found is Some
            && found->0[i],
    decreases indices.len(),
{
    if indices.len() > 0 && found is Some {
        if !found->0[indices[0]] {
            let rest = indices.drop_first();
            lemma_first_found(rest, found);
            if let Some(i) = first_found(rest, found) {
                let k = choose|k: int| 0 <= k < rest.len() && rest[k] == i;
                assert(indices[k + 1] == i);
            }
        } else {
            assert(indices[0] == indices[0]);
        }
    }
}

/// After what is shown changed, the selection is on an item that is shown; it
/// is on the root where none is.
pub proof fn the_settled_selection_is_shown(files: Files)
    ensures
        files.settle().visible() == files.visible(),
        files.visible().len() > 0 ==> lists_id(
            files.items,
            files.visible(),
            files.settle().selected,
        ),
        files.visible().len() == 0 ==> files.settle().selected == files.items[0].id,
{
    let indices = files.visible();
    lemma_first_found(indices, files.found());
    if indices.len() > 0 {
        if !lists_id(files.items, indices, files.selected) {
            match first_found(indices, files.found()) {
                Some(i) => {
                    let k = choose|k: int| 0 <= k < indices.len() && indices[k] == i;
                    assert(files.items[indices[k]].id == files.settle().selected);
                },
                None => {
                    assert(files.items[indices[0]].id == files.settle().selected);
                },
            }
        }
    }
}

proof fn lemma_settle_valid(files: Files)
    requires
        tree(files.items),
        utf8_len(files.filter) <= MAX_FILTER_BYTES,
        files.expanded.contains(files.items[0].id),
        forall|id: u64| #[trigger]
            files.expanded.contains(id) ==> index_of(files.items, id) is Some
                && files.items[index_of(files.items, id)->0].directory,
    ensures
        files.settle().valid(),
{
    lemma_visible(files);
    the_settled_selection_is_shown(files);
    if files.visible().len() > 0 {
        let id = files.settle().selected;
        let k = choose|k: int|
            0 <= k < files.visible().len() && files.items[#[trigger] files.visible()[k]].id == id;
        assert(files.items[files.visible()[k]].id == id);
    } else {
        assert(files.items[0].id == files.settle().selected);
    }
}

proof fn lemma_position(list: Seq<Item>, indices: Seq<int>, id: u64)
    requires
        lists_id(list, indices, id),
    ensures
        0 <= position_of(list, indices, id) < indices.len(),
        list[indices[position_of(list, indices, id)]].id == id,
    decreases indices.len(),
{
    lemma_lists_id_front(list, indices, id);
    if list[indices[0]].id != id {
        lemma_position(list, indices.drop_first(), id);
    }
}

/// A selection that is shown stands in the rows, however few fit.
pub proof fn the_rows_hold_the_selection(files: Files, max_rows: int)
    requires
        max_rows > 0,
        lists_id(files.items, files.visible(), files.selected),
    ensures
        exists|k: int|
            0 <= k < files.rows(max_rows).len() && (#[trigger] files.rows(max_rows)[k]).selected
                && files.rows(max_rows)[k].id.0 == files.selected,
{
    let list = files.visible();
    lemma_position(files.items, list, files.selected);
    let place = position_of(files.items, list, files.selected);
    centered_window_shows_the_selection(list.len() as int, place, max_rows);
    let k = place - files.first_row(max_rows);
    assert(files.rows(max_rows)[k] == files.row(list[place]));
}

proof fn lemma_root_directory(list: Seq<Item>)
    requires
        tree(list),
    ensures
        index_of(list, list[0].id) == Some(0int),
        list[0].directory,
{
    lemma_index_of(list, list[0].id);
    assert(has_id(list, list[0].id));
    let i = index_of(list, list[0].id)->0;
    if i > 0 {
        assert(list[0].id != list[i].id);
    }
}

/// Whatever is done to a valid panel, it stays valid; and a panel is valid to
/// begin with.
pub proof fn panels_stay_valid(
    files: Files,
    generation: u64,
    items: Seq<Item>,
    filter: Seq<char>,
    show: bool,
    delta: int,
    id: u64,
    i: int,
)
    requires
        files.valid(),
    ensures
        tree(items) ==> Files::opened(generation, items).valid() && files.refreshed(
            generation,
            items,
        ).valid(),
        utf8_len(filter) <= MAX_FILTER_BYTES ==> files.filtered(filter).valid(),
        (Files { show_ignored: show, ..files }).settle().valid(),
        (Files { show_hidden: show, ..files }).settle().valid(),
        index_of(files.items, id) is Some && files.items[index_of(files.items, id)->0].directory
            ==> files.toggled(id).valid(),
        files.moved(delta).valid(),
        0 <= i < files.items.len() ==> files.revealed(i).valid(),
{
    lemma_root_directory(files.items);
    if tree(items) {
        lemma_refreshed_valid(files, generation, items);
    }
    if utf8_len(filter) <= MAX_FILTER_BYTES {
        lemma_filtered_valid(files, filter);
    }
    lemma_settle_valid(Files { show_ignored: show, ..files });
    lemma_settle_valid(Files { show_hidden: show, ..files });
    if index_of(files.items, id) is Some && files.items[index_of(files.items, id)->0].directory {
        if id != files.items[0].id {
            lemma_settle_valid(Files { expanded: files.expanded.remove(id), ..files });
            lemma_settle_valid(Files { expanded: files.expanded.insert(id), ..files });
        }
    }
    lemma_moved_valid(files, delta);
    if 0 <= i < files.items.len() {
        lemma_revealed_valid(files, i);
    }
}

proof fn lemma_refreshed_valid(files: Files, generation: u64, items: Seq<Item>)
    requires
        files.valid(),
        tree(items),
    ensures
        Files::opened(generation, items).valid(),
        files.refreshed(generation, items).valid(),
{
    lemma_root_directory(files.items);
    lemma_root_directory(items);
    assert(utf8_len(Seq::<char>::empty()) == 0);
    lemma_settle_valid(
        Files {
            generation,
            items,
            expanded: set![items[0].id],
            selected: if has_id(items, 0) {
                0
            } else {
                items[0].id
            },
            filter: Seq::empty(),
            show_ignored: false,
            show_hidden: false,
        },
    );
    lemma_settle_valid(
        Files {
            generation,
            items,
            expanded: Set::new(
                |id: u64|
                    id == items[0].id || files.expanded.contains(id) && index_of(
                        items,
                        id,
                    ) is Some && items[index_of(items, id)->0].directory,
            ),
            selected: if has_id(items, files.selected) {
                files.selected
            } else {
                match index_of(files.items, files.selected) {
                    Some(i) => nearest(items, parts(files.items[i].path)),
                    None => items[0].id,
                }
            },
            ..files
        },
    );
}

proof fn lemma_filtered_valid(files: Files, filter: Seq<char>)
    requires
        files.valid(),
        utf8_len(filter) <= MAX_FILTER_BYTES,
    ensures
        files.filtered(filter).valid(),
{
    let next = Files { filter, ..files };
    lemma_settle_valid(next);
    let settled_files = next.settle();
    lemma_visible(settled_files);
    lemma_first_found(settled_files.visible(), settled_files.found());
    if let Some(hit) = first_found(settled_files.visible(), settled_files.found()) {
        let k = choose|k: int|
            0 <= k < settled_files.visible().len() && settled_files.visible()[k] == hit;
        assert(settled_files.visible()[k] == hit);
        assert(settled_files.items[hit].id == settled_files.items[hit].id);
    }
}

proof fn lemma_moved_valid(files: Files, delta: int)
    requires
        files.valid(),
    ensures
        files.moved(delta).valid(),
{
    lemma_visible(files);
    let list = files.visible();
    if lists_id(files.items, list, files.selected) {
        lemma_position(files.items, list, files.selected);
        let next = files.next_position(delta);
        assert(files.items[list[next]].id == files.moved(delta).selected);
    }
}

proof fn lemma_revealed_valid(files: Files, i: int)
    requires
        files.valid(),
        0 <= i < files.items.len(),
    ensures
        files.revealed(i).valid(),
{
    lemma_root_directory(files.items);
    let next = files.revealed(i);
    assert(files.items[i].id == next.selected);
    assert forall|id: u64| #[trigger] next.expanded.contains(id) implies index_of(
        files.items,
        id,
    ) is Some && files.items[index_of(files.items, id)->0].directory by {
        if !files.expanded.contains(id) {
            let a = choose|a: int|
                #[trigger] on_path(files.items, a, i) && files.items[a].id == id;
            lemma_ancestor_directory(files.items, a, i);
            lemma_index_of(files.items, id);
            assert(has_id(files.items, id));
            let m = index_of(files.items, id)->0;
            if m < a {
                assert(files.items[m].id != files.items[a].id);
            } else if a < m {
                assert(files.items[a].id != files.items[m].id);
            }
        }
    }
}

/// What leads to an item is a directory.
proof fn lemma_ancestor_directory(list: Seq<Item>, a: int, i: int)
    requires
        tree(list),
        0 <= i < list.len(),
        on_path(list, a, i),
    ensures
        list[a].directory,
    decreases parts(list[i].path).len(),
{
    lemma_root_leads(list, a);
    assert(i > 0);
    let p = choose|p: int| #[trigger] is_parent(list, p, i);
    assert(is_parent(list, p, i));
    let above = parts(list[a].path);
    let below = parts(list[i].path);
    let middle = parts(list[p].path);
    assert(below.len() > 0);
    assert(middle =~= below.take(middle.len() as int));
    if above.len() == middle.len() {
        assert(above =~= middle);
        if a < p {
            assert(parts(list[a].path) != parts(list[p].path));
        } else if p < a {
            assert(parts(list[p].path) != parts(list[a].path));
        }
    } else {
        assert(below.take(above.len() as int) =~= middle.take(above.len() as int));
        lemma_ancestor_directory(list, a, p);
    }
}

/// An item that was made visible is shown, unless a filter or what is ignored
/// or hidden hides it.
pub proof fn revealed_items_are_shown(files: Files, i: int)
    requires
        0 <= i < files.items.len(),
        files.found() is None,
        reachable(
            files.items,
            (Shown { ignored: files.show_ignored, hidden: files.show_hidden }),
            i,
        ),
    ensures
        files.revealed(i).visible().contains(i),
        files.revealed(i).selected == files.items[i].id,
{
    let next = files.revealed(i);
    let show = Shown { ignored: files.show_ignored, hidden: files.show_hidden };
    let keep = shown(files.items, next.expanded, show, None);
    lemma_kept(0, files.items.len() as int, keep);
    assert forall|a: int| #[trigger] on_path(files.items, a, i) implies next.expanded.contains(
        files.items[a].id,
    ) by {}
    assert(keep(i));
}

/// There is only one order in which the items of a project make a tree.
pub proof fn the_tree_is_unique(a: Seq<Item>, b: Seq<Item>)
    requires
        tree(a),
        tree(b),
        same_items(a, b),
    ensures
        a == b,
{
    lemma_same_tree(a, b, a.len() as int);
    assert(a =~= b);
}

#[verifier::spinoff_prover]
#[verifier::rlimit(60)]
proof fn lemma_same_tree(a: Seq<Item>, b: Seq<Item>, n: int)
    requires
        tree(a),
        tree(b),
        same_items(a, b),
        0 <= n <= a.len(),
    ensures
        forall|k: int| 0 <= k < n ==> #[trigger] a[k] == b[k],
    decreases n,
{
    if n > 0 {
        lemma_same_tree(a, b, n - 1);
        let k = n - 1;
        if a[k] != b[k] {
            assert(a.contains(a[k]));
            assert(b.contains(a[k]));
            let p = choose|p: int| 0 <= p < b.len() && b[p] == a[k];
            assert(b.contains(b[k]));
            assert(a.contains(b[k]));
            let q = choose|q: int| 0 <= q < a.len() && a[q] == b[k];
            lemma_levels_strict(place_of(a[k]), place_of(a[k]));
            lemma_levels_strict(place_of(b[k]), place_of(b[k]));
            if p < k {
                assert(a[p] == b[p]);
                assert(levels_precede(place_of(a[p]), place_of(a[k])));
            }
            if q < k {
                assert(a[q] == b[q]);
                assert(levels_precede(place_of(b[q]), place_of(b[k])));
            }
            assert(levels_precede(place_of(b[k]), place_of(b[p])));
            assert(levels_precede(place_of(a[k]), place_of(a[q])));
            lemma_levels_strict(place_of(a[k]), place_of(b[k]));
        }
    }
}

/// A change that is planned was asked for in a trusted project, stays beneath
/// its root and away from its history, and overwrites nothing.
pub proof fn planned_changes_are_in_order(
    root: Seq<char>,
    kind: MutationKind,
    source: Option<SourceFacts>,
    target: Option<TargetFacts>,
    trusted: bool,
)
    requires
        local_fault(root, kind, source, target, trusted) is None,
    ensures
        trusted,
        source matches Some(facts) ==> {
            &&& beneath(
                parts(extended(facts.path.existing@, texts(facts.path.missing@))),
                parts(root),
            )
            &&& mutation_path_fault(facts.path.relative@) is None
            &&& facts.kind == FileKind::File || facts.kind == FileKind::Directory
        },
        target matches Some(facts) ==> {
            &&& beneath(
                parts(extended(facts.path.existing@, texts(facts.path.missing@))),
                parts(root),
            )
            &&& mutation_path_fault(facts.path.relative@) is None
            &&& !facts.exists
        },
        source is Some || target is Some,
{
}

} // verus!
