//! Laws of what is shown of a repository and done to it.

use vstd::prelude::*;

use crate::features::context::{Command, Purpose, Scene};
use crate::features::git_panel::{
    asked, commanded, headed, line_row, moved, nearest_file, next_file, position, previous_file,
    selected_row, Chore, GitChoice, GitLine,
};
use crate::geometry::least;
use crate::git_panel::{
    all_sections, code_letter, file_index, file_order, file_parts, file_precedes, file_text,
    section_color, sections, sorted_files, tracked_by, Branch, FileStatus, GitFile, GitSection,
    GitView, GitStatus, StatusCode, StatusEntry,
};
use crate::order::{orders, stable_order, the_order_exists};
use crate::paint::{with_modifiers, REVERSED};
use crate::paths::parts;
use crate::project_panel::{lemma_levels_strict, lemma_levels_transitive, levels, levels_precede};
use crate::text::{decimal, ends, starts};
use crate::features::git_panel::{git_title, Repository};
use crate::git_panel::branch_name;

verus! {

/// Some of the files are in a section.
pub open spec fn has_section(files: Seq<GitFile>, section: GitSection) -> bool {
    exists|k: int| 0 <= k < files.len() && (#[trigger] files[k]).section == section
}

/// A file stands among the staged ones where the index differs from the last
/// commit, and among the changes where the working tree differs from the
/// index; a conflict or an untracked file stands in its own section alone.
pub proof fn files_stand_in_their_sections(entry: StatusEntry)
    ensures
        ({
            let files = sections(entry);
            match entry.status {
                FileStatus::Unmerged(_) => files.len() == 1 && files[0].section
                    == GitSection::Conflicts,
                FileStatus::Untracked => files.len() == 1 && files[0].section
                    == GitSection::Untracked,
                FileStatus::InIndex(status) => {
                    &&& has_section(files, GitSection::Staged) <==> !(status.index_status
                        is Unmodified)
                    &&& has_section(files, GitSection::Changes) <==> status.index_status
                        is Unmodified || !(status.worktree_status is Unmodified)
                    &&& !has_section(files, GitSection::Conflicts)
                    &&& !has_section(files, GitSection::Untracked)
                    &&& files.len() <= 2
                    &&& files.len() == 2 ==> files[0].section != files[1].section
                },
                FileStatus::Ignored => true,
            }
        }),
        forall|k: int|
            0 <= k < sections(entry).len() ==> (#[trigger] sections(entry)[k]).path
                == entry.repo_path@ && sections(entry)[k].status == entry.status,
{
    let files = sections(entry);
    if files.len() > 0 {
        assert(files[0].section == files[0].section);
    }
    if files.len() > 1 {
        assert(files[1].section == files[1].section);
    }
}

/// A staged file tells what the index did to it and counts the staged lines;
/// any other tells what the working tree did and counts the lines that are
/// not staged. Where those were not counted the lines of both are.
pub proof fn files_tell_their_own_changes(entry: StatusEntry, k: int)
    requires
        0 <= k < sections(entry).len(),
    ensures
        ({
            let file = sections(entry)[k];
            let own = if file.section == GitSection::Staged {
                entry.staged_diff_stat
            } else {
                entry.unstaged_diff_stat
            };
            &&& own matches Some(stat) ==> file.additions == stat.added && file.deletions
                == stat.deleted
            &&& own is None && entry.diff_stat is Some ==> file.additions
                == entry.diff_stat->0.added && file.deletions == entry.diff_stat->0.deleted
            &&& own is None && entry.diff_stat is None ==> file.additions == 0 && file.deletions
                == 0
            &&& entry.status is Unmerged ==> file.code == 'U'
            &&& entry.status is Untracked ==> file.code == '?'
            &&& entry.status matches FileStatus::InIndex(status) ==> file.code == (if file.section
                == GitSection::Staged {
                code_letter(status.index_status)
            } else {
                code_letter(status.worktree_status)
            })
        }),
{
}

/// What was done to a file is told by its first letter; a file that is as it
/// was has a dot.
pub proof fn changes_are_told_by_their_first_letters(code: StatusCode)
    ensures
        code_letter(code) == match code {
            StatusCode::Modified => "Modified"@[0],
            StatusCode::TypeChanged => "TypeChanged"@[0],
            StatusCode::Added => "Added"@[0],
            StatusCode::Deleted => "Deleted"@[0],
            StatusCode::Renamed => "Renamed"@[0],
            StatusCode::Copied => "Copied"@[0],
            StatusCode::Unmodified => "\u{b7}"@[0],
        },
{
    reveal_strlit("Modified");
    reveal_strlit("TypeChanged");
    reveal_strlit("Added");
    reveal_strlit("Deleted");
    reveal_strlit("Renamed");
    reveal_strlit("Copied");
    reveal_strlit("\u{b7}");
}

/// Each file adds what stands in its sections; what is ignored adds nothing.
pub proof fn ignored_files_are_left_out(list: Seq<StatusEntry>, entry: StatusEntry)
    ensures
        all_sections(Seq::empty()).len() == 0,
        entry.status is Ignored ==> all_sections(list.push(entry)) == all_sections(list),
        !(entry.status is Ignored) ==> all_sections(list.push(entry)) == all_sections(list)
            + sections(entry),
{
    assert(list.push(entry).drop_last() =~= list);
}

proof fn lemma_files_are_ordered(list: Seq<GitFile>)
    ensures
        orders(list.len() as int, file_order(list)),
{
    let before = file_order(list);
    assert forall|i: int, j: int|
        0 <= i < list.len() && 0 <= j < list.len() && #[trigger] before(i, j) implies !before(
        j,
        i,
    ) by {
        lemma_levels_strict(levels(parts(list[i].path), true), levels(parts(list[j].path), true));
    }
    assert forall|i: int, j: int, k: int|
        0 <= i < list.len() && 0 <= j < list.len() && 0 <= k < list.len() && !(#[trigger] before(
            i,
            j,
        )) && !(#[trigger] before(j, k)) implies !before(i, k) by {
        let a = levels(parts(list[i].path), true);
        let b = levels(parts(list[j].path), true);
        let c = levels(parts(list[k].path), true);
        lemma_levels_strict(a, b);
        lemma_levels_strict(b, c);
        lemma_levels_strict(a, c);
        if levels_precede(c, b) && levels_precede(b, a) {
            lemma_levels_transitive(c, b, a);
        }
    }
}

/// Conflicts come first, then what is staged, then what is changed, and what
/// is not tracked comes last; in a section the files are in the order of
/// their paths. All of them are listed.
pub proof fn files_are_listed_by_section_and_path(list: Seq<GitFile>, a: int, b: int)
    requires
        0 <= a < b < list.len(),
    ensures
        ({
            let files = sorted_files(list);
            let (up, down) = (files[a].section, files[b].section);
            &&& files.len() == list.len()
            &&& down is Conflicts ==> up is Conflicts
            &&& down is Staged ==> up is Conflicts || up is Staged
            &&& up is Untracked ==> down is Untracked
            &&& up is Changes ==> down is Changes || down is Untracked
            &&& up == down ==> !levels_precede(
                levels(parts(files[b].path), true),
                levels(parts(files[a].path), true),
            )
            &&& list.contains(files[a]) && list.contains(files[b])
            &&& files.contains(list[a]) && files.contains(list[b])
        }),
{
    let before = file_order(list);
    lemma_files_are_ordered(list);
    the_order_exists(list.len() as int, before);
    let order = stable_order(list.len() as int, before);
    let files = sorted_files(list);
    let (i, j) = (order[a], order[b]);
    assert(before(i, j) || !before(j, i) && i < j);
    assert(before(i, j) == file_precedes(list[i], list[j]));
    assert(before(j, i) == file_precedes(list[j], list[i]));
    lemma_levels_strict(levels(parts(list[i].path), true), levels(parts(list[j].path), true));
    assert(list[i] == files[a] && list[j] == files[b]);
    assert(order.contains(a) && order.contains(b));
    let m = choose|k: int| 0 <= k < order.len() && order[k] == a;
    let n = choose|k: int| 0 <= k < order.len() && order[k] == b;
    assert(files[m] == list[a] && files[n] == list[b]);
}

/// The files of some rows.
pub open spec fn files_of(rows: Seq<GitLine>) -> Seq<GitFile>
    decreases rows.len(),
{
    if rows.len() == 0 {
        Seq::empty()
    } else {
        match rows.last() {
            GitLine::File(file) => files_of(rows.drop_last()).push(file),
            GitLine::Header(_) => files_of(rows.drop_last()),
        }
    }
}

/// A heading stands in front of a file of its section, and behind a file of
/// another.
pub open spec fn heads_its_section(rows: Seq<GitLine>, i: int) -> bool {
    rows[i] is Header ==> {
        &&& i + 1 < rows.len()
        &&& rows[i + 1] is File
        &&& rows[i + 1]->File_0.section == rows[i]->Header_0
        &&& i > 0 ==> rows[i - 1] is File && rows[i - 1]->File_0.section != rows[i]->Header_0
    }
}

/// A file behind another is of the same section.
pub open spec fn stays_in_its_section(rows: Seq<GitLine>, i: int) -> bool {
    i > 0 && rows[i] is File && rows[i - 1] is File ==> rows[i]->File_0.section == rows[i
        - 1]->File_0.section
}

/// Every file has a row, in order, and nothing but the first file of a section
/// has the section's heading in front of it.
pub proof fn sections_are_headed(list: Seq<GitFile>)
    ensures
        files_of(headed(list)) == list,
        list.len() > 0 ==> headed(list).len() > 0 && headed(list)[0] is Header && headed(list).last()
            == GitLine::File(list.last()),
        forall|i: int|
            0 <= i < headed(list).len() ==> #[trigger] heads_its_section(headed(list), i),
        forall|i: int|
            0 <= i < headed(list).len() ==> #[trigger] stays_in_its_section(headed(list), i),
    decreases list.len(),
{
    if list.len() > 0 {
        let front = list.drop_last();
        let file = list.last();
        let before = headed(front);
        let rows = headed(list);
        sections_are_headed(front);
        if front.len() > 0 {
            assert(front.last() == list[list.len() - 2]);
        }
        let header = GitLine::Header(file.section);
        let line = GitLine::File(file);
        if list.len() > 1 && list[list.len() - 2].section == file.section {
            assert(rows == before.push(line));
            assert(rows.drop_last() =~= before);
        } else {
            assert(rows == before.push(header).push(line));
            assert(rows.drop_last() =~= before.push(header));
            assert(before.push(header).drop_last() =~= before);
            assert(files_of(before.push(header)) == files_of(before));
        }
        assert(front.push(file) =~= list);
        assert forall|i: int| 0 <= i < rows.len() implies #[trigger] heads_its_section(rows, i) by {
            if i < before.len() {
                assert(heads_its_section(before, i));
            }
        }
        assert forall|i: int| 0 <= i < rows.len() implies #[trigger] stays_in_its_section(
            rows,
            i,
        ) by {
            if i < before.len() {
                assert(stays_in_its_section(before, i));
            }
        }
    } else {
        assert(files_of(headed(list)) =~= list);
    }
}

/// Going on leads to the nearest file behind, going back to the nearest in
/// front; headings are passed over.
pub proof fn the_nearest_file_is_selected(rows: Seq<GitLine>, index: int, forward: bool)
    requires
        0 <= index < rows.len(),
    ensures
        match nearest_file(rows, index, forward) {
            Some(found) => {
                &&& 0 <= found < rows.len()
                &&& rows[found] is File
                &&& forward ==> index < found && forall|i: int|
                    index < i < found ==> !((#[trigger] rows[i]) is File)
                &&& !forward ==> found < index && forall|i: int|
                    found < i < index ==> !((#[trigger] rows[i]) is File)
            },
            None => {
                &&& forward ==> forall|i: int|
                    index < i < rows.len() ==> !((#[trigger] rows[i]) is File)
                &&& !forward ==> forall|i: int| 0 <= i < index ==> !((#[trigger] rows[i]) is File)
            },
        },
{
    if forward {
        lemma_next_file(rows, index + 1);
    } else {
        lemma_previous_file(rows, index);
    }
}

proof fn lemma_next_file(rows: Seq<GitLine>, from: int)
    requires
        0 <= from,
    ensures
        match next_file(rows, from) {
            Some(found) => from <= found < rows.len() && rows[found] is File && forall|i: int|
                from <= i < found ==> !((#[trigger] rows[i]) is File),
            None => forall|i: int| from <= i < rows.len() ==> !((#[trigger] rows[i]) is File),
        },
    decreases rows.len() - from,
{
    if from < rows.len() && !(rows[from] is File) {
        lemma_next_file(rows, from + 1);
    }
}

proof fn lemma_previous_file(rows: Seq<GitLine>, to: int)
    requires
        0 <= to <= rows.len(),
    ensures
        match previous_file(rows, to) {
            Some(found) => 0 <= found < to && rows[found] is File && forall|i: int|
                found < i < to ==> !((#[trigger] rows[i]) is File),
            None => forall|i: int| 0 <= i < to ==> !((#[trigger] rows[i]) is File),
        },
    decreases to,
{
    if to > 0 && !(rows[to - 1] is File) {
        lemma_previous_file(rows, to - 1);
    }
}

proof fn lemma_position(rows: Seq<GitLine>, wanted: spec_fn(GitLine) -> bool)
    ensures
        match position(rows, wanted) {
            Some(found) => 0 <= found < rows.len() && wanted(rows[found]) && forall|i: int|
                0 <= i < found ==> !wanted(#[trigger] rows[i]),
            None => forall|i: int| 0 <= i < rows.len() ==> !wanted(#[trigger] rows[i]),
        },
    decreases rows.len(),
{
    if rows.len() > 0 {
        let front = rows.drop_last();
        lemma_position(front, wanted);
        assert forall|i: int| 0 <= i < front.len() implies #[trigger] rows[i] == front[i] by {}
    }
}

/// What is selected is the row of the file that was selected, in its section;
/// where it is gone, the first file.
pub proof fn the_selection_is_the_files_row(rows: Seq<GitLine>, section: GitSection, path: Seq<char>, i: int)
    requires
        0 <= i < rows.len(),
        rows[i] is File,
    ensures
        ({
            let found = selected_row(rows, Some((section, path)));
            &&& found matches Some(k)
            &&& 0 <= k < rows.len() && rows[k] is File
            &&& rows[i]->File_0.section == section && rows[i]->File_0.path == path ==> k <= i
                && rows[k]->File_0.section == section && rows[k]->File_0.path == path
            &&& !(rows[k]->File_0.section == section && rows[k]->File_0.path == path) ==> k <= i
        }),
        selected_row(rows, None) matches Some(k) && k <= i,
{
    let own = |line: GitLine| crate::features::git_panel::is_file(line, section, path);
    let any = |line: GitLine| crate::features::git_panel::file_row(line);
    lemma_position(rows, own);
    lemma_position(rows, any);
    assert(any(rows[i]));
}

/// The commands that move the selection lead from file to file, and stop where
/// there is no further one. Others leave it.
pub proof fn the_selection_moves_from_file_to_file(
    command: Command,
    rows: Seq<GitLine>,
    choice: GitChoice,
    index: int,
)
    requires
        selected_row(rows, choice.selected) == Some(index),
        0 <= index < rows.len(),
        rows[index] is File,
    ensures
        ({
            let next = moved(command, rows, choice);
            let at = |k: int| Some((rows[k]->File_0.section, rows[k]->File_0.path));
            &&& next.first_row == choice.first_row
            &&& command is PanelSelectNext ==> next.selected == at(
                match nearest_file(rows, index, true) {
                    Some(k) => k,
                    None => index,
                },
            )
            &&& command is PanelSelectPrevious ==> next.selected == at(
                match nearest_file(rows, index, false) {
                    Some(k) => k,
                    None => index,
                },
            )
            &&& !(command is PanelSelectNext) && !(command is PanelSelectPrevious)
                ==> next.selected == at(index)
        }),
{
    the_nearest_file_is_selected(rows, index, true);
    the_nearest_file_is_selected(rows, index, false);
}

/// Toggling takes a staged file out of the index and puts any other in; it is
/// told which. The other commands speak of all files.
pub proof fn toggling_stages_and_takes_back(file: GitFile)
    ensures
        asked(Command::GitToggleStaged, Some(file)) is Some,
        ({
            let (chore, words) = asked(Command::GitToggleStaged, Some(file))->0;
            &&& file.section == GitSection::Staged ==> chore == Chore::Unstage(file.path)
                && starts(words, "unstaged "@)
            &&& file.section != GitSection::Staged ==> chore == Chore::Stage(file.path) && starts(
                words,
                "staged "@,
            )
            &&& ends(words, " "@ + file.path)
        }),
        asked(Command::GitToggleStaged, None) is None,
        asked(Command::GitStageAll, Some(file)) matches Some((chore, _)) && chore is StageAll,
        asked(Command::GitUnstageAll, Some(file)) matches Some((chore, _)) && chore is UnstageAll,
{
    let (chore, words) = asked(Command::GitToggleStaged, Some(file))->0;
    reveal_strlit("unstaged");
    reveal_strlit("staged");
    reveal_strlit("unstaged ");
    reveal_strlit("staged ");
    reveal_strlit(" ");
    let tail = " "@ + file.path;
    assert(words.skip(words.len() - tail.len()) =~= tail);
    if file.section == GitSection::Staged {
        assert(words.take(9) =~= "unstaged "@);
    } else {
        assert(words.take(7) =~= "staged "@);
    }
}

/// A commit is asked for where something is staged; else it is told that
/// nothing is, and the layers stay.
pub proof fn commits_need_something_staged(rows: Seq<GitLine>, file: Option<GitFile>, scene: Scene)
    ensures
        ({
            let after = commanded(Command::GitCommit, rows, file, scene);
            if exists|k: int|
                0 <= k < rows.len() && (#[trigger] rows[k]) is File && rows[k]->File_0.section
                    == GitSection::Staged {
                &&& after.layers.len() == 1
                &&& after.layers[0] is Prompt
                &&& after.layers[0]->target == Purpose::GitCommit
                &&& after.layers[0]->line.text.len() == 0
            } else {
                after.layers == scene.layers && after.status is Some
            }
        }),
        commanded(Command::GitStageAll, rows, file, scene) == scene,
        commanded(Command::GitUnstageAll, rows, file, scene) == scene,
        file is Some ==> commanded(Command::GitToggleStaged, rows, file, scene) == scene,
{
}

/// The row of a file tells its letter, its path and its lines, and can be
/// chosen; that of a heading cannot.
pub proof fn rows_tell_their_files(line: GitLine)
    ensures
        line_row(line).enabled <==> line is File,
        line matches GitLine::Header(section) ==> line_row(line).text == section.heading(),
        line matches GitLine::File(file) ==> line_row(line).text == "  "@ + seq![file.code] + " "@
            + file.path + "  +"@ + decimal(file.additions as nat) + " -"@ + decimal(
            file.deletions as nat,
        ),
{
    if let GitLine::File(file) = line {
        assert("  "@.push(file.code) =~= "  "@ + seq![file.code]);
    }
}

/// After a refresh the panel shows the new files; the selection stays on its
/// file where that is still there, and else at its place, or on the last file.
pub proof fn refreshing_keeps_the_place(panel: GitView, status: GitStatus)
    requires
        0 <= panel.selected < panel.status.files.len(),
        status.files.len() > 0,
        forall|i: int|
            0 <= i < status.files.len() ==> !((#[trigger] status.files[i]).section
                == panel.status.files[panel.selected].section && status.files[i].path
                == panel.status.files[panel.selected].path),
    ensures
        panel.refreshed(status).status == status,
        panel.refreshed(status).selected == if panel.selected < status.files.len() {
            panel.selected
        } else {
            status.files.len() - 1
        },
{
    lemma_no_file_index(
        status.files,
        panel.status.files[panel.selected].section,
        panel.status.files[panel.selected].path,
    );
}

proof fn lemma_no_file_index(list: Seq<GitFile>, section: GitSection, path: Seq<char>)
    requires
        forall|i: int|
            0 <= i < list.len() ==> !((#[trigger] list[i]).section == section && list[i].path
                == path),
    ensures
        file_index(list, section, path) is None,
    decreases list.len(),
{
    if list.len() > 0 {
        lemma_no_file_index(list.drop_last(), section, path);
    }
}

/// The commits ahead and behind are told where there are any, those ahead
/// first; a branch without a counterpart has none.
pub proof fn commits_ahead_and_behind_are_told(panel: GitView, branch: Option<Branch>)
    ensures
        ({
            let text = panel.tracking_text();
            let ahead = " \u{2191}"@ + decimal(panel.status.ahead as nat);
            let behind = " \u{2193}"@ + decimal(panel.status.behind as nat);
            &&& panel.status.ahead == 0 && panel.status.behind == 0 ==> text.len() == 0
            &&& panel.status.ahead > 0 ==> starts(text, ahead)
            &&& panel.status.behind > 0 ==> ends(text, behind)
            &&& panel.status.ahead > 0 && panel.status.behind > 0 ==> text.len() == ahead.len()
                + behind.len()
            &&& panel.status.behind == 0 && panel.status.ahead > 0 ==> text == ahead
            &&& panel.status.ahead == 0 && panel.status.behind > 0 ==> text == behind
        }),
        branch matches Some(own) ==> (own.tracking is Some ==> tracked_by(branch)
            == own.tracking->0),
        branch is None || branch->0.tracking is None ==> tracked_by(branch) == (0u32, 0u32),
{
    let text = panel.tracking_text();
    let ahead = " \u{2191}"@ + decimal(panel.status.ahead as nat);
    let behind = " \u{2193}"@ + decimal(panel.status.behind as nat);
    if panel.status.ahead > 0 {
        assert(text.take(ahead.len() as int) =~= ahead);
    }
    if panel.status.behind > 0 {
        assert(text.skip(text.len() - behind.len()) =~= behind);
    }
}

/// The window is as high as there are rows for it or files to show, and the
/// selection is in its middle where there are files on both sides.
pub proof fn the_window_is_filled(panel: GitView, row_budget: int)
    requires
        0 <= panel.selected < panel.status.files.len(),
        0 < row_budget,
    ensures
        ({
            let (from, to) = panel.window(row_budget);
            let count = panel.status.files.len();
            &&& to - from == least(row_budget, count as int)
            &&& 0 <= from <= panel.selected < to <= count
            &&& panel.selected - from < row_budget / 2 ==> from == 0 || count <= row_budget
            &&& panel.selected - from > row_budget / 2 ==> to == count
        }),
{
}

/// Each section has a color of its own, and a selected file is marked and
/// reversed.
pub proof fn selected_files_are_marked(a: GitFile, b: GitFile)
    ensures
        section_color(a.section) == section_color(b.section) ==> a.section == b.section,
        file_parts(a, true) == with_modifiers(file_parts(a, false), REVERSED),
        starts(file_text(a, true), "\u{203a}"@),
        starts(file_text(a, false), " "@),
        file_text(a, true).skip(1) == file_text(a, false).skip(1),
        file_text(a, false).subrange(2, 3) == seq![a.code],
{
    reveal_strlit("\u{203a}");
    reveal_strlit(" ");
    assert(file_text(a, true).take(1) =~= "\u{203a}"@);
    assert(file_text(a, false).take(1) =~= " "@);
    assert(file_text(a, true).skip(1) =~= file_text(a, false).skip(1));
    assert(file_text(a, false).subrange(2, 3) =~= seq![a.code]);
}

/// The title tells the repository's name and the branch that is checked out.
pub proof fn titles_tell_the_repository_and_the_branch(repository: Repository, branch: Branch)
    ensures
        starts(git_title(repository), " Git \u{b7} "@ + repository.display_name@),
        repository.branch matches Some(name) ==> ends(
            git_title(repository),
            " \u{b7} "@ + name@ + " "@,
        ),
        repository.branch is None ==> ends(
            git_title(repository),
            " \u{b7} "@ + "detached HEAD"@ + " "@,
        ),
        branch_name(Some(branch)) == branch.name@,
{
    let all = git_title(repository);
    let front = " Git \u{b7} "@ + repository.display_name@;
    assert(all.take(front.len() as int) =~= front);
    let name = match repository.branch {
        Some(name) => name@,
        None => "detached HEAD"@,
    };
    let end = " \u{b7} "@ + name + " "@;
    assert(all.skip(all.len() - end.len()) =~= end);
}

} // verus!
