//! The state of a repository's files: what is in conflict, staged, changed,
//! or not tracked.

use ratatui::buffer::Buffer;
use ratatui::style::Style;
use vstd::prelude::*;
use vstd::string::*;

use crate::geometry::{
    above_zero, at_most, centered_start, centered_start_of, centered_window_shows_the_selection,
    least, numbers, step_by, stepped, Rect,
};
use crate::order::{sort_order, sorts, stable_order, Ordered};
use crate::paint::{
    add_modifiers, all_start_on, buffer_area, buffer_cells, colored, drawn, lemma_no_paragraphs,
    no_paragraphs, no_parts, paint, plain_style, starts_on, strokes, style_parts, takes, touches, with_color, with_modifiers, HostColor,
    Paint, Stroke, StyleParts, BOLD, DIM, REVERSED,
};
use crate::paths::{components, part_list, parts, Component};
use crate::project_panel::{
    lemma_levels_strict, lemma_levels_transitive, levels, levels_precede, place_before,
};
use crate::text::{decimal, push_decimal, same_text};

verus! {

broadcast use vstd::string::group_string_axioms;

/// The parts of the panel, in their order.
#[derive(Clone, Copy, Debug, PartialEq, Eq, PartialOrd, Ord, Structural)]
pub enum GitSection {
    Conflicts,
    Staged,
    Changes,
    Untracked,
}

impl GitSection {
    pub open spec fn rank(self) -> int {
        match self {
            GitSection::Conflicts => 0,
            GitSection::Staged => 1,
            GitSection::Changes => 2,
            GitSection::Untracked => 3,
        }
    }

    pub open spec fn heading(self) -> Seq<char> {
        match self {
            GitSection::Conflicts => "Conflicts"@,
            GitSection::Staged => "Staged Changes"@,
            GitSection::Changes => "Changes"@,
            GitSection::Untracked => "Untracked Files"@,
        }
    }

    /// The words over the section.
    pub fn title(self) -> (title: &'static str)
        ensures
            title@ == self.heading(),
    {
        match self {
            GitSection::Conflicts => "Conflicts",
            GitSection::Staged => "Staged Changes",
            GitSection::Changes => "Changes",
            GitSection::Untracked => "Untracked Files",
        }
    }

    fn place(self) -> (rank: u8)
        ensures
            rank == self.rank(),
    {
        match self {
            GitSection::Conflicts => 0,
            GitSection::Staged => 1,
            GitSection::Changes => 2,
            GitSection::Untracked => 3,
        }
    }
}

/// How a file differs on one side of the index.
#[derive(Clone, Copy, Debug, PartialEq, Eq, Structural)]
pub enum StatusCode {
    Modified,
    TypeChanged,
    Added,
    Deleted,
    Renamed,
    Copied,
    Unmodified,
}

/// How the two sides of a merge differ.
#[derive(Clone, Copy, Debug, PartialEq, Eq, Structural)]
pub enum UnmergedStatusCode {
    Added,
    Deleted,
    Updated,
}

#[derive(Clone, Copy, Debug, PartialEq, Eq, Structural)]
pub struct UnmergedStatus {
    pub first_head: UnmergedStatusCode,
    pub second_head: UnmergedStatusCode,
}

/// How a tracked file differs in the index, and from the index.
#[derive(Clone, Copy, Debug, PartialEq, Eq, Structural)]
pub struct TrackedStatus {
    pub index_status: StatusCode,
    pub worktree_status: StatusCode,
}

#[derive(Clone, Copy, Debug, PartialEq, Eq, Structural)]
pub enum FileStatus {
    Untracked,
    Ignored,
    Unmerged(UnmergedStatus),
    InIndex(TrackedStatus),
}

/// How much of a file's changes is staged.
#[derive(Clone, Copy, Debug, PartialEq, Eq, Structural)]
pub enum StageStatus {
    Staged,
    Unstaged,
    PartiallyStaged,
}

impl FileStatus {
    /// A tracked file stands in the index as far as it differs there.
    pub open spec fn stage(self) -> StageStatus {
        match self {
            FileStatus::InIndex(status) => if status.index_status == StatusCode::Unmodified {
                StageStatus::Unstaged
            } else if status.worktree_status == StatusCode::Unmodified {
                StageStatus::Staged
            } else {
                StageStatus::PartiallyStaged
            },
            _ => StageStatus::Unstaged,
        }
    }

    /// A file that differs from the index alone.
    pub fn worktree(code: StatusCode) -> (status: Self)
        ensures
            status == FileStatus::InIndex(
                TrackedStatus { index_status: StatusCode::Unmodified, worktree_status: code },
            ),
    {
        FileStatus::InIndex(
            TrackedStatus { index_status: StatusCode::Unmodified, worktree_status: code },
        )
    }

    pub fn staging(self) -> (stage: StageStatus)
        ensures
            stage == self.stage(),
    {
        match self {
            FileStatus::InIndex(status) => match (status.index_status, status.worktree_status) {
                (StatusCode::Unmodified, _) => StageStatus::Unstaged,
                (_, StatusCode::Unmodified) => StageStatus::Staged,
                _ => StageStatus::PartiallyStaged,
            },
            _ => StageStatus::Unstaged,
        }
    }
}

/// The letter for a status.
pub open spec fn code_letter(code: StatusCode) -> char {
    match code {
        StatusCode::Modified => 'M',
        StatusCode::TypeChanged => 'T',
        StatusCode::Added => 'A',
        StatusCode::Deleted => 'D',
        StatusCode::Renamed => 'R',
        StatusCode::Copied => 'C',
        StatusCode::Unmodified => '\u{b7}',
    }
}

/// The letter for a file on one side of the index.
pub open spec fn letter(status: FileStatus, staged: bool) -> char {
    match status {
        FileStatus::InIndex(status) => code_letter(
            if staged {
                status.index_status
            } else {
                status.worktree_status
            },
        ),
        FileStatus::Untracked => '?',
        _ => 'U',
    }
}

/// The letter for a file, staged or not.
pub fn status_code(status: FileStatus, staged: bool) -> (code: char)
    ensures
        code == letter(status, staged),
{
    let status = match status {
        FileStatus::InIndex(status) => status,
        FileStatus::Untracked => {
            return '?';
        },
        _ => {
            return 'U';
        },
    };
    let code = if staged {
        status.index_status
    } else {
        status.worktree_status
    };
    match code {
        StatusCode::Modified => 'M',
        StatusCode::TypeChanged => 'T',
        StatusCode::Added => 'A',
        StatusCode::Deleted => 'D',
        StatusCode::Renamed => 'R',
        StatusCode::Copied => 'C',
        StatusCode::Unmodified => '\u{b7}',
    }
}

/// How many lines were added and deleted.
#[derive(Clone, Copy, Debug, PartialEq, Eq, Structural)]
pub struct DiffStat {
    pub added: u32,
    pub deleted: u32,
}

/// The status of one file of a repository.
#[derive(Clone, Debug, PartialEq, Eq)]
pub struct StatusEntry {
    pub repo_path: String,
    pub status: FileStatus,
    pub diff_stat: Option<DiffStat>,
    pub staged_diff_stat: Option<DiffStat>,
    pub unstaged_diff_stat: Option<DiffStat>,
}

/// A file in one section of the panel.
#[derive(Clone, Debug, PartialEq, Eq)]
pub struct GitEntry {
    pub section: GitSection,
    pub repo_path: String,
    pub status: FileStatus,
    pub status_code: char,
    pub additions: u64,
    pub deletions: u64,
}

/// The plain values of a [`GitEntry`].
pub struct GitFile {
    pub section: GitSection,
    pub path: Seq<char>,
    pub status: FileStatus,
    pub code: char,
    pub additions: u64,
    pub deletions: u64,
}

impl View for GitEntry {
    type V = GitFile;

    open spec fn view(&self) -> GitFile {
        GitFile {
            section: self.section,
            path: self.repo_path@,
            status: self.status,
            code: self.status_code,
            additions: self.additions,
            deletions: self.deletions,
        }
    }
}

impl GitEntry {
    /// Whether the key that stages and unstages stages the entry.
    pub fn should_stage(&self) -> (result: bool)
        ensures
            result == (self.section != GitSection::Staged),
    {
        match self.section {
            GitSection::Staged => false,
            _ => true,
        }
    }
}

/// The files that a list of entries holds.
pub open spec fn git_files(list: Seq<GitEntry>) -> Seq<GitFile> {
    Seq::new(list.len(), |i: int| list[i]@)
}

/// The counts for one side of the index, or those for the file.
pub open spec fn counts(entry: StatusEntry, staged: bool) -> Option<DiffStat> {
    let own = if staged {
        entry.staged_diff_stat
    } else {
        entry.unstaged_diff_stat
    };
    if own is Some {
        own
    } else {
        entry.diff_stat
    }
}

/// A file in a section.
pub open spec fn file_in(
    entry: StatusEntry,
    section: GitSection,
    code: char,
    staged: bool,
) -> GitFile {
    GitFile {
        section,
        path: entry.repo_path@,
        status: entry.status,
        code,
        additions: match counts(entry, staged) {
            Some(stat) => stat.added as u64,
            None => 0,
        },
        deletions: match counts(entry, staged) {
            Some(stat) => stat.deleted as u64,
            None => 0,
        },
    }
}

/// Where a file stands: one that is staged in part stands in two sections.
pub open spec fn sections(entry: StatusEntry) -> Seq<GitFile> {
    match entry.status {
        FileStatus::Unmerged(_) => seq![file_in(entry, GitSection::Conflicts, 'U', false)],
        FileStatus::Untracked => seq![file_in(entry, GitSection::Untracked, '?', false)],
        _ => {
            let staged = file_in(entry, GitSection::Staged, letter(entry.status, true), true);
            let changed = file_in(entry, GitSection::Changes, letter(entry.status, false), false);
            match entry.status.stage() {
                StageStatus::Staged => seq![staged],
                StageStatus::Unstaged => seq![changed],
                StageStatus::PartiallyStaged => seq![staged, changed],
            }
        },
    }
}

fn git_entry(entry: &StatusEntry, section: GitSection, status_code: char, staged: bool) -> (result:
    GitEntry)
    ensures
        result@ == file_in(*entry, section, status_code, staged),
{
    let own = if staged {
        entry.staged_diff_stat
    } else {
        entry.unstaged_diff_stat
    };
    let stat = match own {
        Some(stat) => Some(stat),
        None => entry.diff_stat,
    };
    let (additions, deletions) = match stat {
        Some(stat) => (stat.added as u64, stat.deleted as u64),
        None => (0, 0),
    };
    GitEntry {
        section,
        repo_path: entry.repo_path.clone(),
        status: entry.status,
        status_code,
        additions,
        deletions,
    }
}

/// The entries of the panel for a file.
pub fn project_status_entry(entry: &StatusEntry) -> (result: Vec<GitEntry>)
    ensures
        git_files(result@) == sections(*entry),
{
    let mut result: Vec<GitEntry> = Vec::new();
    match entry.status {
        FileStatus::Unmerged(_) => {
            result.push(git_entry(entry, GitSection::Conflicts, 'U', false));
        },
        FileStatus::Untracked => {
            result.push(git_entry(entry, GitSection::Untracked, '?', false));
        },
        _ => match entry.status.staging() {
            StageStatus::Staged => {
                let code = status_code(entry.status, true);
                result.push(git_entry(entry, GitSection::Staged, code, true));
            },
            StageStatus::Unstaged => {
                let code = status_code(entry.status, false);
                result.push(git_entry(entry, GitSection::Changes, code, false));
            },
            StageStatus::PartiallyStaged => {
                let staged_code = status_code(entry.status, true);
                let unstaged_code = status_code(entry.status, false);
                result.push(git_entry(entry, GitSection::Staged, staged_code, true));
                result.push(git_entry(entry, GitSection::Changes, unstaged_code, false));
            },
        },
    }
    assert(git_files(result@) =~= sections(*entry));
    result
}

/// The files of all entries that are not ignored.
pub open spec fn all_sections(list: Seq<StatusEntry>) -> Seq<GitFile>
    decreases list.len(),
{
    if list.len() == 0 {
        Seq::empty()
    } else if list.last().status == FileStatus::Ignored {
        all_sections(list.drop_last())
    } else {
        all_sections(list.drop_last()) + sections(list.last())
    }
}

/// Whether a file comes before another: by section, then by path.
pub open spec fn file_precedes(a: GitFile, b: GitFile) -> bool {
    a.section.rank() < b.section.rank() || a.section == b.section && levels_precede(
        levels(parts(a.path), true),
        levels(parts(b.path), true),
    )
}

/// The order of some files.
pub open spec fn file_order(list: Seq<GitFile>) -> spec_fn(int, int) -> bool {
    |i: int, j: int| file_precedes(list[i], list[j])
}

/// The files in their order.
pub open spec fn sorted_files(list: Seq<GitFile>) -> Seq<GitFile> {
    let order = stable_order(list.len() as int, file_order(list));
    Seq::new(list.len(), |k: int| list[order[k]])
}

struct Listing<'a> {
    entries: &'a Vec<GitEntry>,
    keys: &'a Vec<Vec<Component>>,
}

impl<'a> Listing<'a> {
    spec fn key(&self, i: int) -> (int, Seq<crate::project_panel::Level>) {
        (self.entries@[i].section.rank(), levels(part_list(self.keys@[i]@), true))
    }
}

impl<'a> Ordered for Listing<'a> {
    closed spec fn count(&self) -> nat {
        least(self.entries@.len() as int, self.keys@.len() as int) as nat
    }

    closed spec fn before(&self, i: int, j: int) -> bool {
        self.key(i).0 < self.key(j).0 || self.key(i).0 == self.key(j).0 && levels_precede(
            self.key(i).1,
            self.key(j).1,
        )
    }

    proof fn before_is_asymmetric(&self, i: int, j: int) {
        lemma_levels_strict(self.key(i).1, self.key(j).1);
    }

    proof fn after_is_transitive(&self, i: int, j: int, k: int) {
        let (a, b, c) = (self.key(i).1, self.key(j).1, self.key(k).1);
        lemma_levels_strict(a, b);
        lemma_levels_strict(b, c);
        lemma_levels_strict(a, c);
        if levels_precede(c, b) && levels_precede(b, a) {
            lemma_levels_transitive(c, b, a);
        }
    }

    fn is_before(&self, i: usize, j: usize) -> (result: bool) {
        let a: u8 = self.entries[i].section.place();
        let b: u8 = self.entries[j].section.place();
        let left = &self.keys[i];
        let right = &self.keys[j];
        a < b || a == b && place_before(left, left.len(), true, right, right.len(), true)
    }
}

/// The entries of the panel, in their order.
pub fn sorted_entries(statuses: &Vec<StatusEntry>) -> (result: Vec<GitEntry>)
    ensures
        git_files(result@) == sorted_files(all_sections(statuses@)),
{
    let mut entries: Vec<GitEntry> = Vec::new();
    let mut i: usize = 0;
    assert(statuses@.take(0) =~= Seq::<StatusEntry>::empty());
    assert(git_files(entries@) =~= Seq::<GitFile>::empty());
    while i < statuses.len()
        invariant
            i <= statuses@.len(),
            git_files(entries@) == all_sections(statuses@.take(i as int)),
        decreases statuses@.len() - i,
    {
        let status = &statuses[i];
        proof {
            assert(statuses@.take(i + 1).drop_last() =~= statuses@.take(i as int));
            assert(statuses@.take(i + 1).last() == *status);
        }
        let ignored = match status.status {
            FileStatus::Ignored => true,
            _ => false,
        };
        if !ignored {
            let mut more = project_status_entry(status);
            let ghost before = entries@;
            let ghost added = more@;
            entries.append(&mut more);
            assert(git_files(entries@) =~= git_files(before) + git_files(added));
        }
        i += 1;
    }
    assert(statuses@.take(i as int) =~= statuses@);
    let ghost list = all_sections(statuses@);
    let mut keys: Vec<Vec<Component>> = Vec::new();
    let mut k: usize = 0;
    while k < entries.len()
        invariant
            k <= entries@.len(),
            keys@.len() == k,
            forall|n: int|
                0 <= n < k ==> part_list((#[trigger] keys@[n])@) == parts(entries@[n].repo_path@),
        decreases entries@.len() - k,
    {
        keys.push(components(entries[k].repo_path.as_str()));
        k += 1;
    }
    let listing = Listing { entries: &entries, keys: &keys };
    proof {
        assert forall|i: int, j: int| 0 <= i < list.len() && 0 <= j < list.len() implies (
        #[trigger] file_order(list)(i, j)) == listing.before(i, j) by {
            assert(list[i] == entries@[i]@ && list[j] == entries@[j]@);
            assert(part_list(keys@[i]@) == parts(list[i].path));
            assert(part_list(keys@[j]@) == parts(list[j].path));
            assert(list[i].section == list[j].section <==> list[i].section.rank()
                == list[j].section.rank());
        }
    }
    let order = sort_order(&listing, entries.len(), Ghost(file_order(list)));
    let mut result: Vec<GitEntry> = Vec::new();
    let mut n: usize = 0;
    while n < order.len()
        invariant
            n <= order@.len() == list.len(),
            list == git_files(entries@),
            numbers(order@) == stable_order(list.len() as int, file_order(list)),
            sorts(numbers(order@), list.len() as int, file_order(list)),
            result@.len() == n,
            forall|k: int| 0 <= k < n ==> (#[trigger] result@[k])@ == list[order@[k] as int],
        decreases order@.len() - n,
    {
        assert(numbers(order@)[n as int] == order@[n as int]);
        let index: usize = order[n];
        assert(list[index as int] == entries@[index as int]@);
        result.push(copy_of(&entries[index]));
        n += 1;
    }
    proof {
        assert(git_files(result@) =~= sorted_files(list)) by {
            assert forall|k: int| 0 <= k < result@.len() implies git_files(result@)[k]
                == sorted_files(list)[k] by {
                assert(numbers(order@)[k] == order@[k]);
            }
        }
    }
    result
}

fn copy_of(entry: &GitEntry) -> (copy: GitEntry)
    ensures
        copy@ == entry@,
{
    GitEntry {
        section: entry.section,
        repo_path: entry.repo_path.clone(),
        status: entry.status,
        status_code: entry.status_code,
        additions: entry.additions,
        deletions: entry.deletions,
    }
}

/// The branch that is checked out, with how far it is ahead of the branch
/// that it tracks and behind it.
#[derive(Clone, Debug, PartialEq, Eq)]
pub struct Branch {
    pub name: String,
    pub tracking: Option<(u32, u32)>,
}

/// A repository at one moment.
#[derive(Clone, Debug, PartialEq, Eq)]
pub struct RepositorySnapshot {
    pub id: u64,
    pub scan_id: u64,
    pub display_name: String,
    pub branch: Option<Branch>,
    pub statuses: Vec<StatusEntry>,
}

/// What the panel shows of a repository.
#[derive(Clone, Debug, PartialEq, Eq)]
pub struct GitPanelSnapshot {
    pub repository_id: u64,
    pub scan_id: u64,
    pub repository_name: String,
    pub branch: String,
    pub ahead: u32,
    pub behind: u32,
    pub entries: Vec<GitEntry>,
}

/// The plain values of a [`GitPanelSnapshot`].
pub struct GitStatus {
    pub repository_id: u64,
    pub scan_id: u64,
    pub name: Seq<char>,
    pub branch: Seq<char>,
    pub ahead: u32,
    pub behind: u32,
    pub files: Seq<GitFile>,
}

impl View for GitPanelSnapshot {
    type V = GitStatus;

    open spec fn view(&self) -> GitStatus {
        GitStatus {
            repository_id: self.repository_id,
            scan_id: self.scan_id,
            name: self.repository_name@,
            branch: self.branch@,
            ahead: self.ahead,
            behind: self.behind,
            files: git_files(self.entries@),
        }
    }
}

/// The name of the branch that is checked out.
pub open spec fn branch_name(branch: Option<Branch>) -> Seq<char> {
    match branch {
        Some(branch) => branch.name@,
        None => "detached HEAD"@,
    }
}

/// The name of the branch that is checked out.
pub fn branch_title(branch: &Option<Branch>) -> (name: String)
    ensures
        name@ == branch_name(*branch),
{
    match branch {
        Some(branch) => branch.name.clone(),
        None => "detached HEAD".to_string(),
    }
}

/// How far a branch is ahead of the branch that it tracks, and behind it.
pub open spec fn tracked_by(branch: Option<Branch>) -> (u32, u32) {
    match branch {
        Some(branch) => match branch.tracking {
            Some(tracking) => tracking,
            None => (0, 0),
        },
        None => (0, 0),
    }
}

impl GitPanelSnapshot {
    pub fn capture(repository: &RepositorySnapshot) -> (snapshot: Self)
        ensures
            snapshot@ == (GitStatus {
                repository_id: repository.id,
                scan_id: repository.scan_id,
                name: repository.display_name@,
                branch: branch_name(repository.branch),
                ahead: tracked_by(repository.branch).0,
                behind: tracked_by(repository.branch).1,
                files: sorted_files(all_sections(repository.statuses@)),
            }),
    {
        let entries = sorted_entries(&repository.statuses);
        let (ahead, behind) = match &repository.branch {
            Some(branch) => match branch.tracking {
                Some(tracking) => tracking,
                None => (0, 0),
            },
            None => (0, 0),
        };
        GitPanelSnapshot {
            repository_id: repository.id,
            scan_id: repository.scan_id,
            repository_name: repository.display_name.clone(),
            branch: branch_title(&repository.branch),
            ahead,
            behind,
            entries,
        }
    }
}

/// The index of the first file in a section with a path.
pub open spec fn file_index(list: Seq<GitFile>, section: GitSection, path: Seq<char>) -> Option<int>
    decreases list.len(),
{
    if list.len() == 0 {
        None
    } else if file_index(list.drop_last(), section, path) is Some {
        file_index(list.drop_last(), section, path)
    } else if list.last().section == section && list.last().path == path {
        Some(list.len() - 1)
    } else {
        None
    }
}

proof fn lemma_file_index_prefix(
    list: Seq<GitFile>,
    count: int,
    section: GitSection,
    path: Seq<char>,
)
    requires
        0 <= count <= list.len(),
        file_index(list.take(count), section, path) is Some,
    ensures
        file_index(list, section, path) == file_index(list.take(count), section, path),
    decreases list.len(),
{
    if count == list.len() {
        assert(list.take(count) =~= list);
    } else {
        assert(list.drop_last().take(count) =~= list.take(count));
        lemma_file_index_prefix(list.drop_last(), count, section, path);
    }
}

proof fn lemma_file_index(list: Seq<GitFile>, section: GitSection, path: Seq<char>)
    ensures
        file_index(list, section, path) matches Some(i) ==> 0 <= i < list.len() && list[i].section
            == section && list[i].path == path,
        file_index(list, section, path) is None ==> forall|i: int|
            0 <= i < list.len() ==> (#[trigger] list[i]).section != section || list[i].path != path,
    decreases list.len(),
{
    if list.len() > 0 {
        let front = list.drop_last();
        lemma_file_index(front, section, path);
        assert forall|i: int| 0 <= i < list.len() && file_index(list, section, path) is None implies (
        #[trigger] list[i]).section != section || list[i].path != path by {
            if i < front.len() {
                assert(front[i] == list[i]);
            }
        }
    }
}

/// Finds a file in a section.
pub fn find_file(entries: &Vec<GitEntry>, section: GitSection, path: &str) -> (index: Option<usize>)
    ensures
        match index {
            Some(i) => i < entries@.len() && file_index(git_files(entries@), section, path@)
                == Some(i as int),
            None => file_index(git_files(entries@), section, path@) is None,
        },
{
    let ghost list = git_files(entries@);
    let mut i: usize = 0;
    assert(list.take(0) =~= Seq::<GitFile>::empty());
    while i < entries.len()
        invariant
            i <= entries@.len(),
            list == git_files(entries@),
            file_index(list.take(i as int), section, path@) is None,
        decreases entries@.len() - i,
    {
        let same = entries[i].section == section && same_text(
            entries[i].repo_path.as_str(),
            path,
        );
        proof {
            assert(list.take(i + 1).drop_last() =~= list.take(i as int));
            assert(list.take(i + 1).last() == entries@[i as int]@);
            if same {
                lemma_file_index_prefix(list, i + 1, section, path@);
            }
        }
        if same {
            return Some(i);
        }
        i += 1;
    }
    assert(list.take(i as int) =~= list);
    None
}

/// The Git panel.
#[derive(Debug)]
pub struct GitPanelState {
    snapshot: GitPanelSnapshot,
    selected: usize,
}

/// What a Git panel holds.
pub struct GitView {
    pub status: GitStatus,
    pub selected: int,
}

impl View for GitPanelState {
    type V = GitView;

    closed spec fn view(&self) -> GitView {
        GitView { status: self.snapshot@, selected: self.selected as int }
    }
}

impl GitView {
    /// The panel over a newer status: the selection stays on its file, and
    /// else in its place.
    pub open spec fn refreshed(self, status: GitStatus) -> GitView {
        let files = self.status.files;
        let found = if self.selected < files.len() {
            file_index(
                status.files,
                files[self.selected].section,
                files[self.selected].path,
            )
        } else {
            None
        };
        GitView {
            status,
            selected: match found {
                Some(i) => i,
                None => least(self.selected, above_zero(status.files.len() - 1)),
            },
        }
    }

    /// The panel after the selection moved.
    pub open spec fn moved(self, delta: int) -> GitView {
        let count = self.status.files.len() as int;
        GitView {
            selected: if count == 0 {
                0
            } else {
                stepped(self.selected, delta, count)
            },
            ..self
        }
    }

    /// The files that fit, around the selected one.
    pub open spec fn window(self, row_budget: int) -> (int, int) {
        let count = self.status.files.len() as int;
        let budget = least(row_budget, count);
        if count == 0 || row_budget == 0 {
            (0, 0)
        } else {
            let start = centered_start_of(count, self.selected, budget);
            (start, start + budget)
        }
    }

    /// How far the branch is ahead and behind, in words.
    pub open spec fn tracking_text(self) -> Seq<char> {
        let ahead = " \u{2191}"@ + decimal(self.status.ahead as nat);
        let behind = " \u{2193}"@ + decimal(self.status.behind as nat);
        if self.status.ahead == 0 && self.status.behind == 0 {
            Seq::empty()
        } else if self.status.behind == 0 {
            ahead
        } else if self.status.ahead == 0 {
            behind
        } else {
            ahead + behind
        }
    }

    /// The title over the panel.
    pub open spec fn heading(self) -> Seq<char> {
        " Git \u{b7} "@ + self.status.name + " \u{b7} "@ + self.status.branch
            + self.tracking_text() + " \u{b7} "@ + decimal(self.status.files.len()) + " "@
    }
}

impl GitPanelState {
    pub fn new(snapshot: GitPanelSnapshot) -> (state: Self)
        ensures
            state@ == (GitView { status: snapshot@, selected: 0 }),
    {
        GitPanelState { snapshot, selected: 0 }
    }

    pub fn apply_snapshot(&mut self, snapshot: GitPanelSnapshot)
        ensures
            final(self)@ == old(self)@.refreshed(snapshot@),
    {
        let ghost before = self@;
        let found = if self.selected < self.snapshot.entries.len() {
            let entry = &self.snapshot.entries[self.selected];
            assert(before.status.files[before.selected] == entry@);
            find_file(&snapshot.entries, entry.section, entry.repo_path.as_str())
        } else {
            None
        };
        self.selected = match found {
            Some(index) => index,
            None => at_most(self.selected, snapshot.entries.len().saturating_sub(1)),
        };
        self.snapshot = snapshot;
    }

    pub fn repository_id(&self) -> (id: u64)
        ensures
            id == self@.status.repository_id,
    {
        self.snapshot.repository_id
    }

    pub fn scan_id(&self) -> (id: u64)
        ensures
            id == self@.status.scan_id,
    {
        self.snapshot.scan_id
    }

    /// The place of the selected entry.
    pub fn selected(&self) -> (selected: usize)
        ensures
            selected == self@.selected,
    {
        self.selected
    }

    pub fn move_selection(&mut self, delta: isize)
        ensures
            final(self)@ == old(self)@.moved(delta as int),
    {
        let count: usize = self.snapshot.entries.len();
        if count == 0 {
            self.selected = 0;
            return ;
        }
        self.selected = step_by(self.selected, delta, count);
    }

    pub fn selected_entry(&self) -> (entry: Option<&GitEntry>)
        ensures
            entry is Some == (self@.selected < self@.status.files.len()),
            entry matches Some(entry) ==> entry@ == self@.status.files[self@.selected],
    {
        if self.selected < self.snapshot.entries.len() {
            assert(self@.status.files[self@.selected] == self.snapshot.entries@[self@.selected]@);
            Some(&self.snapshot.entries[self.selected])
        } else {
            None
        }
    }

    pub fn has_unstaged(&self) -> (result: bool)
        ensures
            result == exists|i: int|
                0 <= i < self@.status.files.len() && (#[trigger] self@.status.files[i]).section
                    != GitSection::Staged,
    {
        let entries = &self.snapshot.entries;
        let ghost files = self@.status.files;
        let mut i: usize = 0;
        while i < entries.len()
            invariant
                i <= entries@.len(),
                files == git_files(entries@),
                files == self@.status.files,
                forall|k: int|
                    0 <= k < i ==> (#[trigger] files[k]).section == GitSection::Staged,
            decreases entries@.len() - i,
        {
            assert(files[i as int] == entries@[i as int]@);
            if entries[i].should_stage() {
                return true;
            }
            i += 1;
        }
        false
    }

    /// The entries that fit, around the selected one: the first, and the end.
    pub fn visible_window(&self, row_budget: usize) -> (window: (usize, usize))
        ensures
            window.0 == self@.window(row_budget as int).0,
            window.1 == self@.window(row_budget as int).1,
            window.0 <= window.1 <= self@.status.files.len(),
    {
        let count: usize = self.snapshot.entries.len();
        if count == 0 || row_budget == 0 {
            return (0, 0);
        }
        let budget: usize = at_most(row_budget, count);
        let start: usize = centered_start(count, self.selected, budget);
        (start, start + budget)
    }

    /// The title over the panel.
    pub fn title(&self) -> (title: String)
        ensures
            title@ == self@.heading(),
    {
        let snapshot = &self.snapshot;
        let mut title = " Git \u{b7} ".to_string();
        title.append(snapshot.repository_name.as_str());
        title.append(" \u{b7} ");
        title.append(snapshot.branch.as_str());
        let tracking = self.tracking();
        title.append(tracking.as_str());
        title.append(" \u{b7} ");
        push_decimal(&mut title, snapshot.entries.len() as u64);
        title.append(" ");
        title
    }

    fn tracking(&self) -> (text: String)
        ensures
            text@ == self@.tracking_text(),
    {
        let mut text = String::new();
        assert(text@ =~= Seq::<char>::empty());
        if self.snapshot.ahead > 0 {
            text.append(" \u{2191}");
            push_decimal(&mut text, self.snapshot.ahead as u64);
            assert(text@ =~= " \u{2191}"@ + decimal(self@.status.ahead as nat));
        }
        let ghost front = text@;
        if self.snapshot.behind > 0 {
            text.append(" \u{2193}");
            push_decimal(&mut text, self.snapshot.behind as u64);
            assert(text@ =~= front + (" \u{2193}"@ + decimal(self@.status.behind as nat)));
        }
        assert(text@ =~= self@.tracking_text());
        text
    }
}

/// A new status keeps the selection on the same file, where it still has it.
pub proof fn the_selection_follows_its_file(panel: GitView, status: GitStatus, i: int)
    requires
        0 <= panel.selected < panel.status.files.len(),
        0 <= i < status.files.len(),
        status.files[i].section == panel.status.files[panel.selected].section,
        status.files[i].path == panel.status.files[panel.selected].path,
    ensures
        ({
            let next = panel.refreshed(status);
            let file = panel.status.files[panel.selected];
            0 <= next.selected < status.files.len() && status.files[next.selected].section
                == file.section && status.files[next.selected].path == file.path
        }),
{
    let file = panel.status.files[panel.selected];
    lemma_file_index(status.files, file.section, file.path);
}

/// The selection stays within the list, and the window shows it.
pub proof fn the_selection_stays_in_the_window(
    panel: GitView,
    status: GitStatus,
    delta: int,
    row_budget: int,
)
    requires
        0 <= panel.selected,
        panel.status.files.len() > 0 ==> panel.selected < panel.status.files.len(),
        row_budget > 0,
    ensures
        status.files.len() > 0 ==> 0 <= panel.refreshed(status).selected < status.files.len(),
        panel.status.files.len() > 0 ==> 0 <= panel.moved(delta).selected
            < panel.status.files.len(),
        panel.status.files.len() > 0 ==> panel.window(row_budget).0 <= panel.selected
            < panel.window(row_budget).1,
{
    if panel.selected < panel.status.files.len() {
        let file = panel.status.files[panel.selected];
        lemma_file_index(status.files, file.section, file.path);
        centered_window_shows_the_selection(
            panel.status.files.len() as int,
            panel.selected,
            least(row_budget, panel.status.files.len() as int),
        );
    }
}

/// The color of a section.
pub open spec fn section_color(section: GitSection) -> HostColor {
    match section {
        GitSection::Conflicts => HostColor::Ansi(9),
        GitSection::Staged => HostColor::Ansi(10),
        GitSection::Changes => HostColor::Ansi(11),
        GitSection::Untracked => HostColor::Ansi(8),
    }
}

/// The style of a section.
pub open spec fn section_parts(section: GitSection) -> StyleParts {
    with_color(no_parts(), section_color(section), true)
}

fn section_style(section: GitSection) -> (style: Style)
    ensures
        style_parts(style) == section_parts(section),
{
    let color = match section {
        GitSection::Conflicts => HostColor::Ansi(9),
        GitSection::Staged => HostColor::Ansi(10),
        GitSection::Changes => HostColor::Ansi(11),
        GitSection::Untracked => HostColor::Ansi(8),
    };
    colored(plain_style(), color, true)
}

/// How many lines of a file changed, in words.
pub open spec fn count_text(file: GitFile) -> Seq<char> {
    if file.additions == 0 && file.deletions == 0 {
        Seq::empty()
    } else {
        "  +"@ + decimal(file.additions as nat) + " -"@ + decimal(file.deletions as nat)
    }
}

/// The text of a row.
pub open spec fn file_text(file: GitFile, selected: bool) -> Seq<char> {
    (if selected {
        "\u{203a}"@
    } else {
        " "@
    }) + " "@ + seq![file.code] + "  "@ + file.path + count_text(file)
}

fn entry_text(entry: &GitEntry, selected: bool) -> (text: String)
    ensures
        text@ == file_text(entry@, selected),
{
    let mut text = if selected {
        "\u{203a}".to_string()
    } else {
        " ".to_string()
    };
    text.append(" ");
    let ghost front = text@;
    text.push(entry.status_code);
    assert(text@ =~= front + seq![entry@.code]);
    text.append("  ");
    text.append(entry.repo_path.as_str());
    let ghost front = text@;
    if entry.additions != 0 || entry.deletions != 0 {
        let mut counts = "  +".to_string();
        push_decimal(&mut counts, entry.additions);
        counts.append(" -");
        push_decimal(&mut counts, entry.deletions);
        text.append(counts.as_str());
    } else {
        assert(front + Seq::<char>::empty() =~= front);
    }
    text
}

/// The style of a file's row.
pub open spec fn file_parts(file: GitFile, selected: bool) -> StyleParts {
    if selected {
        with_modifiers(section_parts(file.section), REVERSED)
    } else {
        section_parts(file.section)
    }
}

/// The style of the words over a section.
pub open spec fn header_parts() -> StyleParts {
    with_modifiers(with_color(no_parts(), HostColor::Ansi(6), true), BOLD)
}

/// The rows that some files take: one each, and one for the words over each
/// section that is not the one before.
pub open spec fn rows_used(files: Seq<GitFile>, previous: Option<GitSection>) -> int
    decreases files.len(),
{
    if files.len() == 0 {
        0
    } else {
        (if previous == Some(files[0].section) {
            1int
        } else {
            2
        }) + rows_used(files.drop_first(), Some(files[0].section))
    }
}

/// The first file that is drawn, from `start` on: the first one from which the
/// selected file has a row of its own, and that one where there is no other.
pub open spec fn first_shown(files: Seq<GitFile>, start: int, selected: int, height: int) -> int
    decreases selected - start,
{
    if !(start < selected < files.len()) || rows_used(
        files.subrange(start, selected + 1),
        None,
    ) <= height {
        start
    } else {
        first_shown(files, start + 1, selected, height)
    }
}

/// The files down to the selected one have rows, or it is the first one.
proof fn lemma_first_shown(files: Seq<GitFile>, start: int, selected: int, height: int)
    requires
        0 <= start <= selected < files.len(),
    ensures
        ({
            let first = first_shown(files, start, selected, height);
            &&& start <= first <= selected
            &&& first == selected || rows_used(files.subrange(first, selected + 1), None) <= height
        }),
    decreases selected - start,
{
    if start < selected && rows_used(files.subrange(start, selected + 1), None) > height {
        lemma_first_shown(files, start + 1, selected, height);
    }
}

/// What is drawn for some files from a row on: each section under its words,
/// as far as there is room.
pub open spec fn file_strokes(
    files: Seq<GitFile>,
    first: int,
    selected: int,
    inner: Rect,
    y: int,
    previous: Option<GitSection>,
) -> Seq<Stroke>
    decreases files.len(),
{
    if files.len() == 0 {
        Seq::empty()
    } else {
        let file = files[0];
        let bottom = inner.spec_bottom() as int;
        let header = previous != Some(file.section) && y < bottom;
        let head = if header {
            seq![
                Stroke::Text {
                    x: inner.x,
                    y: y as u16,
                    text: file.section.heading(),
                    width: usize::MAX,
                    style: header_parts(),
                },
            ]
        } else {
            Seq::empty()
        };
        let row = if header {
            y + 1
        } else {
            y
        };
        if row >= bottom {
            head
        } else {
            let style = file_parts(file, first == selected);
            head + seq![
                Stroke::Fill { area: Rect::spec_new(inner.x, row as u16, inner.width, 1), style },
                Stroke::Text {
                    x: inner.x,
                    y: row as u16,
                    text: file_text(file, first == selected),
                    width: inner.width as usize,
                    style,
                },
            ] + file_strokes(
                files.drop_first(),
                first + 1,
                selected,
                inner,
                row + 1,
                if header {
                    Some(file.section)
                } else {
                    previous
                },
            )
        }
    }
}

/// The section that needs no words over it: where there is one row alone, the
/// file takes it.
pub open spec fn one_row_section(
    files: Seq<GitFile>,
    first: int,
    inner: Rect,
) -> Option<GitSection> {
    if inner.height <= 1 {
        Some(files[first].section)
    } else {
        None
    }
}

/// The files are drawn on the rows of the panel, each on one further down.
proof fn lemma_file_rows(
    files: Seq<GitFile>,
    first: int,
    selected: int,
    inner: Rect,
    y: int,
    previous: Option<GitSection>,
    bounds: Rect,
)
    requires
        inner.y <= y <= inner.spec_bottom(),
    ensures
        forall|k: int, x: int, row: int|
            0 <= k < file_strokes(files, first, selected, inner, y, previous).len()
                && #[trigger] touches(
                bounds,
                file_strokes(files, first, selected, inner, y, previous)[k],
                x,
                row,
            ) ==> y <= row,
        forall|k: int|
            0 <= k < file_strokes(files, first, selected, inner, y, previous).len() ==> on_rows(
                #[trigger] file_strokes(files, first, selected, inner, y, previous)[k],
                inner,
            ),
    decreases files.len(),
{
    let all = file_strokes(files, first, selected, inner, y, previous);
    if files.len() > 0 {
        let bottom = inner.spec_bottom();
        let header = previous != Some(files[0].section) && y < bottom;
        let row = if header {
            y + 1
        } else {
            y
        };
        let before = if header {
            1int
        } else {
            0
        };
        if row < bottom {
            let next = if header {
                Some(files[0].section)
            } else {
                previous
            };
            let more = file_strokes(files.drop_first(), first + 1, selected, inner, row + 1, next);
            lemma_file_rows(
                files.drop_first(),
                first + 1,
                selected,
                inner,
                row + 1,
                next,
                bounds,
            );
            assert(all.skip(before + 2) =~= more);
            assert forall|k: int, x: int, at: int|
                0 <= k < all.len() && #[trigger] touches(bounds, all[k], x, at) implies y <= at by {
                if k >= before + 2 {
                    assert(all[k] == more[k - before - 2]);
                }
            }
            assert forall|k: int| 0 <= k < all.len() implies on_rows(#[trigger] all[k], inner) by {
                if k >= before + 2 {
                    assert(all[k] == more[k - before - 2]);
                }
            }
        }
    }
}

/// The drawing of a file on a row that nothing else is drawn on later.
pub open spec fn shows_file(
    list: Seq<Stroke>,
    k: int,
    file: GitFile,
    inner: Rect,
    y: int,
    bounds: Rect,
) -> bool {
    &&& 0 <= k < list.len()
    &&& list[k] == (Stroke::Text {
        x: inner.x,
        y: y as u16,
        text: file_text(file, true),
        width: inner.width as usize,
        style: file_parts(file, true),
    })
    &&& inner.y <= y < inner.spec_bottom()
    &&& forall|j: int, x: int|
        k < j < list.len() ==> !(#[trigger] touches(bounds, list[j], x, y))
}

proof fn lemma_selected_drawn(
    files: Seq<GitFile>,
    first: int,
    selected: int,
    inner: Rect,
    y: int,
    previous: Option<GitSection>,
    bounds: Rect,
) -> (found: (int, int))
    requires
        0 <= selected - first < files.len(),
        inner.y <= y <= inner.spec_bottom(),
        y + rows_used(files.take(selected - first + 1), previous) <= inner.spec_bottom(),
    ensures
        shows_file(
            file_strokes(files, first, selected, inner, y, previous),
            found.0,
            files[selected - first],
            inner,
            found.1,
            bounds,
        ),
    decreases files.len(),
{
    let all = file_strokes(files, first, selected, inner, y, previous);
    let down = files.take(selected - first + 1);
    let bottom = inner.spec_bottom();
    assert(down[0] == files[0]);
    lemma_rows_used(down.drop_first(), Some(files[0].section));
    let header = previous != Some(files[0].section);
    let row = if header {
        y + 1
    } else {
        y
    };
    let before = if header {
        1int
    } else {
        0
    };
    assert(row < bottom);
    let next = Some(files[0].section);
    let more = file_strokes(files.drop_first(), first + 1, selected, inner, row + 1, next);
    assert(all.skip(before + 2) =~= more);
    lemma_file_rows(files.drop_first(), first + 1, selected, inner, row + 1, next, bounds);
    if selected == first {
        assert forall|j: int, x: int| before + 1 < j < all.len() implies !(#[trigger] touches(
            bounds,
            all[j],
            x,
            row,
        )) by {
            assert(all[j] == more[j - before - 2]);
        }
        (before + 1, row)
    } else {
        assert(down.drop_first() =~= files.drop_first().take(selected - first));
        let found = lemma_selected_drawn(
            files.drop_first(),
            first + 1,
            selected,
            inner,
            row + 1,
            next,
            bounds,
        );
        let k = before + 2 + found.0;
        assert(all[k] == more[found.0]);
        assert forall|j: int, x: int| k < j < all.len() implies !(#[trigger] touches(
            bounds,
            all[j],
            x,
            found.1,
        )) by {
            assert(all[j] == more[j - before - 2]);
        }
        (k, found.1)
    }
}

proof fn lemma_rows_used(files: Seq<GitFile>, previous: Option<GitSection>)
    ensures
        0 <= rows_used(files, previous) <= 2 * files.len(),
    decreases files.len(),
{
    if files.len() > 0 {
        lemma_rows_used(files.drop_first(), Some(files[0].section));
    }
}

/// However few rows a panel has, the selected file is drawn on one of them, and
/// nothing is drawn over it.
pub proof fn the_selected_file_is_shown(panel: GitView, focused: bool, area: Rect, bounds: Rect)
    requires
        area.width >= 3,
        area.height >= 3,
        area.y + area.height <= u16::MAX,
        0 <= panel.selected < panel.status.files.len(),
    ensures
        exists|k: int, y: int|
            shows_file(
                panel.strokes(focused, area),
                k,
                panel.status.files[panel.selected],
                area.spec_inside_border(),
                y,
                bounds,
            ),
{
    let inner = area.spec_inside_border();
    let files = panel.status.files;
    let selected = panel.selected;
    let budget = if inner.height <= 1 {
        1
    } else {
        inner.height - 1
    };
    let window = panel.window(budget);
    centered_window_shows_the_selection(
        files.len() as int,
        selected,
        least(budget, files.len() as int),
    );
    let height = inner.height as int;
    let first = first_shown(files, window.0, selected, height);
    lemma_first_shown(files, window.0, selected, height);
    let shown = files.subrange(first, window.1);
    let previous = one_row_section(files, first, inner);
    let down = shown.take(selected - first + 1);
    assert(down =~= files.subrange(first, selected + 1));
    if first == selected {
        assert(down.drop_first() =~= Seq::<GitFile>::empty());
        assert(rows_used(down.drop_first(), Some(files[first].section)) == 0);
    } else if inner.height <= 1 {
        lemma_rows_used(down.drop_first().drop_first(), Some(down.drop_first()[0].section));
        assert(rows_used(down, None) > 2);
    }
    let list = file_strokes(shown, first, selected, inner, inner.y as int, previous);
    let found = lemma_selected_drawn(
        shown,
        first,
        selected,
        inner,
        inner.y as int,
        previous,
        bounds,
    );
    let all = panel.strokes(focused, area);
    assert(all.skip(2) =~= list);
    assert(all[2 + found.0] == list[found.0]);
    assert forall|j: int, x: int| 2 + found.0 < j < all.len() implies !(#[trigger] touches(
        bounds,
        all[j],
        x,
        found.1,
    )) by {
        assert(all[j] == list[j - 2]);
    }
    assert(shows_file(all, 2 + found.0, files[selected], inner, found.1, bounds));
}

/// The drawing of a panel that lies on a buffer starts on it.
pub proof fn git_panels_on_a_buffer_fit(panel: GitView, focused: bool, area: Rect, bounds: Rect)
    requires
        area.width >= 3 && area.height >= 3 ==> lies_on(area, bounds),
    ensures
        all_start_on(bounds, panel.strokes(focused, area)),
{
    let inner = area.spec_inside_border();
    let all = panel.strokes(focused, area);
    if area.width >= 3 && area.height >= 3 && panel.status.files.len() > 0 {
        let files = panel.status.files;
        let budget = if inner.height <= 1 {
            1
        } else {
            inner.height - 1
        };
        let window = panel.window(budget);
        let first = first_shown(files, window.0, panel.selected, inner.height as int);
        let shown = files.subrange(first, window.1);
        let previous = one_row_section(files, first, inner);
        let list = file_strokes(shown, first, panel.selected, inner, inner.y as int, previous);
        lemma_file_rows(shown, first, panel.selected, inner, inner.y as int, previous, bounds);
        assert(all.skip(2) =~= list);
        assert forall|k: int| 0 <= k < all.len() implies starts_on(bounds, #[trigger] all[k]) by {
            if k >= 2 {
                assert(all[k] == list[k - 2]);
                assert(on_rows(list[k - 2], inner));
            }
        }
    }
}

proof fn lemma_plain_panel(panel: GitView, focused: bool, area: Rect)
    ensures
        no_paragraphs(panel.strokes(focused, area)),
{
    let inner = area.spec_inside_border();
    let all = panel.strokes(focused, area);
    if area.width >= 3 && area.height >= 3 && panel.status.files.len() > 0 {
        let files = panel.status.files;
        let budget = if inner.height <= 1 {
            1
        } else {
            inner.height - 1
        };
        let window = panel.window(budget);
        let first = first_shown(files, window.0, panel.selected, inner.height as int);
        let shown = files.subrange(first, window.1);
        let previous = one_row_section(files, first, inner);
        let list = file_strokes(shown, first, panel.selected, inner, inner.y as int, previous);
        lemma_file_rows(shown, first, panel.selected, inner, inner.y as int, previous, inner);
        assert(all.skip(2) =~= list);
        assert forall|k: int| 0 <= k < all.len() implies !((#[trigger] all[k]) is Paragraph) by {
            if k >= 2 {
                assert(all[k] == list[k - 2]);
                assert(on_rows(list[k - 2], inner));
            }
        }
    }
}

impl GitView {
    /// What the panel draws.
    pub open spec fn strokes(self, focused: bool, area: Rect) -> Seq<Stroke> {
        let inner = area.spec_inside_border();
        let frame = seq![
            Stroke::Clear { area },
            Stroke::Frame {
                area,
                title: self.heading(),
                style: no_parts(),
                border: with_modifiers(
                    no_parts(),
                    if focused {
                        BOLD
                    } else {
                        DIM
                    },
                ),
            },
        ];
        if area.width < 3 || area.height < 3 {
            Seq::empty()
        } else if self.status.files.len() == 0 {
            frame.push(
                Stroke::Text {
                    x: inner.x,
                    y: inner.y,
                    text: "\u{2713} Working tree clean"@,
                    width: usize::MAX,
                    style: with_color(no_parts(), HostColor::Ansi(2), true),
                },
            )
        } else {
            let budget = if inner.height <= 1 {
                1
            } else {
                inner.height - 1
            };
            let window = self.window(budget);
            let files = self.status.files;
            let first = first_shown(files, window.0, self.selected, inner.height as int);
            frame + file_strokes(
                files.subrange(first, window.1),
                first,
                self.selected,
                inner,
                inner.y as int,
                one_row_section(files, first, inner),
            )
        }
    }
}

/// Whether a panel lies on a buffer: not left of it nor above or below it.
pub open spec fn lies_on(area: Rect, buffer: Rect) -> bool {
    buffer.x <= area.x && buffer.y <= area.y && area.y + area.height <= buffer.spec_bottom()
}

/// Draws a Git panel.
pub struct GitPanelWidget<'a> {
    state: &'a GitPanelState,
    focused: bool,
}

impl<'a> GitPanelWidget<'a> {
    /// The panel that is drawn.
    pub closed spec fn panel(self) -> GitView {
        self.state@
    }

    /// Whether the panel has the focus.
    pub closed spec fn has_focus(self) -> bool {
        self.focused
    }

    pub fn new(state: &'a GitPanelState, focused: bool) -> (widget: Self)
        ensures
            widget.panel() == state@,
            widget.has_focus() == focused,
    {
        GitPanelWidget { state, focused }
    }

    /// Whether the files from `from` to `to` fit on some rows.
    fn have_room(&self, from: usize, to: usize, height: u16) -> (result: bool)
        requires
            from <= to <= self.panel().status.files.len(),
        ensures
            result == (rows_used(
                self.panel().status.files.subrange(from as int, to as int),
                None,
            ) <= height),
    {
        let ghost files = self.panel().status.files;
        let entries = &self.state.snapshot.entries;
        let ghost goal = rows_used(files.subrange(from as int, to as int), None);
        let mut rows: u32 = 0;
        let mut previous: Option<GitSection> = None;
        let mut index: usize = from;
        while index < to
            invariant
                from <= index <= to <= entries@.len(),
                files == git_files(entries@),
                files == self.panel().status.files,
                goal == rows_used(files.subrange(from as int, to as int), None),
                rows <= height,
                goal == rows + rows_used(files.subrange(index as int, to as int), previous),
            decreases to - index,
        {
            let entry = &entries[index];
            let ghost rest = files.subrange(index as int, to as int);
            proof {
                assert(rest[0] == entry@);
                assert(rest.drop_first() =~= files.subrange(index + 1, to as int));
                lemma_rows_used(rest.drop_first(), Some(entry@.section));
            }
            let same = match previous {
                Some(section) => section == entry.section,
                None => false,
            };
            rows += if same {
                1
            } else {
                2
            };
            if rows > height as u32 {
                return false;
            }
            previous = Some(entry.section);
            index += 1;
        }
        assert(files.subrange(index as int, to as int) =~= Seq::<GitFile>::empty());
        true
    }

    /// The first file that is drawn.
    fn first_file(&self, start: usize, inner: Rect) -> (first: usize)
        requires
            start < self.panel().status.files.len(),
        ensures
            first == first_shown(
                self.panel().status.files,
                start as int,
                self.panel().selected,
                inner.height as int,
            ),
            start <= first < self.panel().status.files.len(),
            first == start || first <= self.panel().selected,
    {
        let selected: usize = self.state.selected;
        let ghost files = self.panel().status.files;
        let count: usize = self.state.snapshot.entries.len();
        let mut first: usize = start;
        while first < selected && selected < count && !self.have_room(
            first,
            selected + 1,
            inner.height,
        )
            invariant
                files == self.panel().status.files,
                selected == self.panel().selected,
                count == files.len(),
                start <= first < count,
                first == start || first <= selected,
                first_shown(files, start as int, selected as int, inner.height as int)
                    == first_shown(files, first as int, selected as int, inner.height as int),
            decreases selected - first,
        {
            first += 1;
        }
        first
    }

    fn push_files(
        &self,
        list: &mut Vec<Paint>,
        start: usize,
        end: usize,
        inner: Rect,
        section: Option<GitSection>,
    )
        requires
            start <= end <= self.panel().status.files.len(),
        ensures
            strokes(final(list)@) == strokes(old(list)@) + file_strokes(
                self.panel().status.files.subrange(start as int, end as int),
                start as int,
                self.panel().selected,
                inner,
                inner.y as int,
                section,
            ),
    {
        let ghost files = self.panel().status.files;
        let ghost before = list@;
        let ghost goal = strokes(before) + file_strokes(
            files.subrange(start as int, end as int),
            start as int,
            self.panel().selected,
            inner,
            inner.y as int,
            section,
        );
        let entries = &self.state.snapshot.entries;
        let bottom: u16 = inner.bottom();
        let mut y: u16 = inner.y;
        let mut previous: Option<GitSection> = section;
        let mut index: usize = start;
        while index < end
            invariant
                start <= index <= end <= entries@.len(),
                files == git_files(entries@),
                files == self.panel().status.files,
                entries == &self.state.snapshot.entries,
                bottom == inner.spec_bottom(),
                y <= bottom,
                before == old(list)@,
                goal == strokes(list@) + file_strokes(
                    files.subrange(index as int, end as int),
                    index as int,
                    self.panel().selected,
                    inner,
                    y as int,
                    previous,
                ),
                goal == strokes(before) + file_strokes(
                    files.subrange(start as int, end as int),
                    start as int,
                    self.panel().selected,
                    inner,
                    inner.y as int,
                    section,
                ),
            decreases end - index,
        {
            let entry = &entries[index];
            let ghost rest = files.subrange(index as int, end as int);
            let ghost start_list = list@;
            proof {
                assert(rest[0] == entry@);
                assert(rest.drop_first() =~= files.subrange(index + 1, end as int));
            }
            let same = match previous {
                Some(section) => section == entry.section,
                None => false,
            };
            let ghost header = !same && y < bottom;
            let ghost mut head: Seq<Stroke> = Seq::empty();
            if !same && y < bottom {
                let style = add_modifiers(colored(plain_style(), HostColor::Ansi(6), true), BOLD);
                list.push(
                    Paint::Text {
                        x: inner.x,
                        y,
                        text: entry.section.title().to_string(),
                        width: usize::MAX,
                        style,
                    },
                );
                proof {
                    head = seq![
                        Stroke::Text {
                            x: inner.x,
                            y,
                            text: entry@.section.heading(),
                            width: usize::MAX,
                            style: header_parts(),
                        },
                    ];
                    assert(list@.last()@ == head[0]);
                }
                y = y.saturating_add(1);
                previous = Some(entry.section);
            }
            assert(strokes(list@) =~= strokes(start_list) + head);
            if y >= bottom {
                assert(goal =~= strokes(list@));
                return ;
            }
            let selected = index == self.state.selected;
            let mut style = section_style(entry.section);
            if selected {
                style = add_modifiers(style, REVERSED);
            }
            let ghost middle = list@;
            list.push(Paint::Fill { area: Rect::new(inner.x, y, inner.width, 1), style });
            list.push(
                Paint::Text {
                    x: inner.x,
                    y,
                    text: entry_text(entry, selected),
                    width: inner.width as usize,
                    style,
                },
            );
            proof {
                let two = seq![
                    Stroke::Fill {
                        area: Rect::spec_new(inner.x, y, inner.width, 1),
                        style: file_parts(entry@, selected),
                    },
                    Stroke::Text {
                        x: inner.x,
                        y,
                        text: file_text(entry@, selected),
                        width: inner.width as usize,
                        style: file_parts(entry@, selected),
                    },
                ];
                assert(strokes(list@) =~= strokes(middle) + two);
                let more = file_strokes(
                    rest.drop_first(),
                    index + 1,
                    self.panel().selected,
                    inner,
                    y + 1,
                    previous,
                );
                assert(goal =~= strokes(start_list) + (head + two + more));
                assert(goal =~= strokes(list@) + more);
            }
            y = y.saturating_add(1);
            index += 1;
        }
        proof {
            assert(files.subrange(index as int, end as int) =~= Seq::<GitFile>::empty());
            assert(goal =~= strokes(list@));
        }
    }

    /// Whether a buffer of the given area takes the drawing.
    pub fn fits(&self, area: Rect, bounds: Rect) -> (result: bool)
        ensures
            result == all_start_on(bounds, self.panel().strokes(self.has_focus(), area)),
    {
        proof {
            lemma_plain_panel(self.panel(), self.has_focus(), area);
            lemma_no_paragraphs(bounds, self.panel().strokes(self.has_focus(), area));
        }
        takes(bounds, &self.paints(area))
    }

    /// Draws the panel on the buffer.
    pub fn render(self, area: Rect, buffer: &mut Buffer)
        requires
            all_start_on(
                buffer_area(*old(buffer)),
                self.panel().strokes(self.has_focus(), area),
            ),
        ensures
            buffer_area(*final(buffer)) == buffer_area(*old(buffer)),
            buffer_cells(*final(buffer)) == drawn(
                buffer_cells(*old(buffer)),
                buffer_area(*old(buffer)),
                self.panel().strokes(self.has_focus(), area),
            ),
    {
        proof {
            lemma_plain_panel(self.panel(), self.has_focus(), area);
            lemma_no_paragraphs(
                buffer_area(*buffer),
                self.panel().strokes(self.has_focus(), area),
            );
        }
        paint(buffer, &self.paints(area));
    }

    fn paints(&self, area: Rect) -> (list: Vec<Paint>)
        ensures
            strokes(list@) == self.panel().strokes(self.has_focus(), area),
    {
        let mut list: Vec<Paint> = Vec::new();
        if area.width >= 3 && area.height >= 3 {
            list.push(Paint::Clear { area });
            let border = add_modifiers(
                plain_style(),
                if self.focused {
                    BOLD
                } else {
                    DIM
                },
            );
            list.push(
                Paint::Frame { area, title: self.state.title(), style: plain_style(), border },
            );
            let inner = area.inside_border();
            let ghost frame = list@;
            if self.state.snapshot.entries.len() == 0 {
                list.push(
                    Paint::Text {
                        x: inner.x,
                        y: inner.y,
                        text: "\u{2713} Working tree clean".to_string(),
                        width: usize::MAX,
                        style: colored(plain_style(), HostColor::Ansi(2), true),
                    },
                );
            } else {
                let budget: usize = if inner.height <= 1 {
                    1
                } else {
                    inner.height as usize - 1
                };
                let (start, end) = self.state.visible_window(budget);
                let first: usize = self.first_file(start, inner);
                let section = if inner.height <= 1 {
                    Some(self.state.snapshot.entries[first].section)
                } else {
                    None
                };
                self.push_files(&mut list, first, end, inner, section);
            }
            proof {
                assert(strokes(frame) =~= seq![
                    Stroke::Clear { area },
                    Stroke::Frame {
                        area,
                        title: self.panel().heading(),
                        style: no_parts(),
                        border: style_parts(border),
                    },
                ]);
            }
        }
        assert(strokes(list@) =~= self.panel().strokes(self.has_focus(), area));
        list
    }
}

/// Whether a stroke styles cells, or writes on a row of a rectangle from its
/// left side on.
spec fn on_rows(stroke: Stroke, inner: Rect) -> bool {
    match stroke {
        Stroke::Fill { .. } => true,
        Stroke::Text { x, y, .. } => x == inner.x && inner.y <= y < inner.spec_bottom(),
        _ => false,
    }
}

} // verus!
