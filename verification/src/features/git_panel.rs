//! The panel of what has changed in the repository: conflicts, staged,
//! unstaged, and untracked files. It keeps the selection alone; what has
//! changed is read anew each time.

use vstd::prelude::*;
use vstd::string::*;

use crate::features::context::{
    prompt, prompt_layer, Command, Ctx, Outcome, PanelOutcome, PromptTarget, Purpose, Scene,
};
use crate::geometry::{window_start, window_start_of};
use crate::git_panel::{
    all_sections, git_files, sorted_entries, sorted_files, GitEntry, GitFile, GitSection,
    StatusEntry,
};
use crate::overlay::{push_row, row, row_texts, RowText};
use crate::paths::{join, joined};
use crate::render::{OverlayRow, OverlaySnapshot};
use crate::text::{decimal, push_decimal, same_text, trim, trimmed};

verus! {

broadcast use vstd::string::group_string_axioms;

/// The key context of this panel's own bindings.
pub const KEY_CONTEXT: &'static str = "zec_git_panel";

/// Something that was asked of the repository ended.
#[derive(Debug)]
pub enum GitPanelEvent {
    Finished { description: String, result: Result<(), String> },
}

/// A repository as the panel reads it.
#[derive(Debug)]
pub struct Repository {
    /// The path of its working directory.
    pub directory: String,
    pub display_name: String,
    /// The branch that is checked out.
    pub branch: Option<String>,
    pub statuses: Vec<StatusEntry>,
}

/// A row of the panel.
#[derive(Debug)]
pub enum Row {
    Header(GitSection),
    Entry(GitEntry),
}

/// The plain values of a [`Row`].
pub enum GitLine {
    Header(GitSection),
    File(GitFile),
}

impl View for Row {
    type V = GitLine;

    open spec fn view(&self) -> GitLine {
        match *self {
            Row::Header(section) => GitLine::Header(section),
            Row::Entry(entry) => GitLine::File(entry@),
        }
    }
}

/// The plain values of some rows.
pub open spec fn git_lines(list: Seq<Row>) -> Seq<GitLine> {
    Seq::new(list.len(), |i: int| list[i]@)
}

/// Some files, each section under its title.
pub open spec fn headed(list: Seq<GitFile>) -> Seq<GitLine>
    decreases list.len(),
{
    if list.len() == 0 {
        Seq::empty()
    } else {
        let before = headed(list.drop_last());
        let file = list.last();
        if list.len() > 1 && list[list.len() - 2].section == file.section {
            before.push(GitLine::File(file))
        } else {
            before.push(GitLine::Header(file.section)).push(GitLine::File(file))
        }
    }
}

/// The rows of a repository.
pub open spec fn git_rows(statuses: Seq<StatusEntry>) -> Seq<GitLine> {
    headed(sorted_files(all_sections(statuses)))
}

/// The rows of a repository.
pub fn rows(statuses: &Vec<StatusEntry>) -> (result: Vec<Row>)
    ensures
        git_lines(result@) == git_rows(statuses@),
{
    let entries = sorted_entries(statuses);
    let ghost files = git_files(entries@);
    let mut result: Vec<Row> = Vec::new();
    let mut i: usize = 0;
    assert(files.take(0) =~= Seq::<GitFile>::empty());
    assert(git_lines(result@) =~= Seq::<GitLine>::empty());
    while i < entries.len()
        invariant
            i <= entries@.len(),
            files == git_files(entries@),
            git_lines(result@) == headed(files.take(i as int)),
        decreases entries@.len() - i,
    {
        let entry = &entries[i];
        let ghost before = result@;
        proof {
            assert(files.take(i + 1).drop_last() =~= files.take(i as int));
            assert(files.take(i + 1).last() == entry@);
            if i > 0 {
                assert(files.take(i + 1)[i - 1] == entries@[i - 1]@);
            }
        }
        if i == 0 || entries[i - 1].section != entry.section {
            result.push(Row::Header(entry.section));
            assert(git_lines(result@) =~= git_lines(before).push(GitLine::Header(entry.section)));
        }
        let ghost middle = result@;
        let copy = GitEntry {
            section: entry.section,
            repo_path: entry.repo_path.clone(),
            status: entry.status,
            status_code: entry.status_code,
            additions: entry.additions,
            deletions: entry.deletions,
        };
        result.push(Row::Entry(copy));
        assert(git_lines(result@) =~= git_lines(middle).push(GitLine::File(entry@)));
        i += 1;
    }
    assert(files.take(i as int) =~= files);
    result
}

/// The first row that is wanted.
pub open spec fn position(rows: Seq<GitLine>, wanted: spec_fn(GitLine) -> bool) -> Option<int>
    decreases rows.len(),
{
    if rows.len() == 0 {
        None
    } else {
        match position(rows.drop_last(), wanted) {
            Some(index) => Some(index),
            None => if wanted(rows.last()) {
                Some(rows.len() - 1)
            } else {
                None
            },
        }
    }
}

proof fn lemma_position(rows: Seq<GitLine>, wanted: spec_fn(GitLine) -> bool)
    ensures
        match position(rows, wanted) {
            Some(index) => 0 <= index < rows.len() && wanted(rows[index]),
            None => forall|k: int| 0 <= k < rows.len() ==> !wanted(#[trigger] rows[k]),
        },
    decreases rows.len(),
{
    if rows.len() > 0 {
        lemma_position(rows.drop_last(), wanted);
        assert forall|k: int| position(rows, wanted) is None && 0 <= k < rows.len() implies !wanted(
            #[trigger] rows[k],
        ) by {
            if k < rows.len() - 1 {
                assert(rows.drop_last()[k] == rows[k]);
            }
        }
    }
}

/// Whether a row is one of a file.
pub open spec fn file_row(line: GitLine) -> bool {
    line is File
}

/// Whether a row is the one of a file in a section.
pub open spec fn is_file(line: GitLine, section: GitSection, path: Seq<char>) -> bool {
    match line {
        GitLine::File(file) => file.section == section && file.path == path,
        GitLine::Header(_) => false,
    }
}

/// The row of the selection: of the file that is selected, or of the first
/// one.
pub open spec fn selected_row(rows: Seq<GitLine>, selected: Option<(GitSection, Seq<char>)>) -> Option<
    int,
> {
    let own = match selected {
        Some((section, path)) => position(rows, |line: GitLine| is_file(line, section, path)),
        None => None,
    };
    match own {
        Some(index) => Some(index),
        None => position(rows, |line: GitLine| file_row(line)),
    }
}

/// The next row of a file, from an index on.
pub open spec fn next_file(rows: Seq<GitLine>, from: int) -> Option<int>
    decreases rows.len() - from,
{
    if from >= rows.len() {
        None
    } else if rows[from] is File {
        Some(from)
    } else {
        next_file(rows, from + 1)
    }
}

/// The last row of a file before an index.
pub open spec fn previous_file(rows: Seq<GitLine>, to: int) -> Option<int>
    decreases to,
{
    if to <= 0 {
        None
    } else if rows[to - 1] is File {
        Some(to - 1)
    } else {
        previous_file(rows, to - 1)
    }
}

/// The nearest row of a file after or before an index.
pub open spec fn nearest_file(rows: Seq<GitLine>, index: int, forward: bool) -> Option<int> {
    if forward {
        next_file(rows, index + 1)
    } else {
        previous_file(rows, index)
    }
}

/// The nearest row of an entry after or before an index.
pub fn next_entry(rows: &Vec<Row>, index: usize, forward: bool) -> (result: Option<usize>)
    requires
        index < rows@.len(),
    ensures
        match result {
            Some(found) => found < rows@.len() && nearest_file(
                git_lines(rows@),
                index as int,
                forward,
            ) == Some(found as int),
            None => nearest_file(git_lines(rows@), index as int, forward) is None,
        },
{
    let ghost all = git_lines(rows@);
    let total: usize = rows.len();
    if forward && index == total - 1 {
        None
    } else if forward {
        let mut i: usize = index + 1;
        while i < rows.len()
            invariant
                i <= rows@.len(),
                all == git_lines(rows@),
                forward,
                next_file(all, index + 1) == next_file(all, i as int),
            decreases rows@.len() - i,
        {
            assert(all[i as int] == rows@[i as int]@);
            if let Row::Entry(_) = &rows[i] {
                return Some(i);
            }
            i += 1;
        }
        None
    } else {
        let mut i: usize = index;
        while i > 0
            invariant
                i <= index < rows@.len(),
                all == git_lines(rows@),
                !forward,
                previous_file(all, index as int) == previous_file(all, i as int),
            decreases i,
        {
            assert(all[i - 1] == rows@[i - 1]@);
            if let Row::Entry(_) = &rows[i - 1] {
                return Some(i - 1);
            }
            i -= 1;
        }
        None
    }
}

/// The section and path of a selected file.
pub open spec fn choice_view(selected: Option<(GitSection, String)>) -> Option<
    (GitSection, Seq<char>),
> {
    match selected {
        Some((section, path)) => Some((section, path@)),
        None => None,
    }
}

/// What the panel keeps.
pub struct GitChoice {
    pub selected: Option<(GitSection, Seq<char>)>,
    /// The first row that the last frame showed.
    pub first_row: int,
}

impl GitChoice {
    /// With the file of a row selected, if it is one of a file.
    pub open spec fn choosing(self, rows: Seq<GitLine>, index: Option<int>) -> GitChoice {
        match index {
            Some(index) => if 0 <= index < rows.len() {
                match rows[index] {
                    GitLine::File(file) => GitChoice {
                        selected: Some((file.section, file.path)),
                        ..self
                    },
                    GitLine::Header(_) => self,
                }
            } else {
                self
            },
            None => self,
        }
    }

    /// With the selection on a row that there is.
    pub open spec fn settled(self, rows: Seq<GitLine>) -> GitChoice {
        self.choosing(rows, selected_row(rows, self.selected))
    }

    /// The file that is selected.
    pub open spec fn file(self, rows: Seq<GitLine>) -> Option<GitFile> {
        match selected_row(rows, self.selected) {
            Some(index) => Some(rows[index]->File_0),
            None => None,
        }
    }
}

/// What is asked of a repository.
#[derive(Debug, PartialEq, Eq)]
pub enum GitOperation {
    Stage(String),
    Unstage(String),
    StageAll,
    UnstageAll,
}

/// The plain values of a [`GitOperation`].
pub enum Chore {
    Stage(Seq<char>),
    Unstage(Seq<char>),
    StageAll,
    UnstageAll,
}

impl View for GitOperation {
    type V = Chore;

    open spec fn view(&self) -> Chore {
        match *self {
            GitOperation::Stage(path) => Chore::Stage(path@),
            GitOperation::Unstage(path) => Chore::Unstage(path@),
            GitOperation::StageAll => Chore::StageAll,
            GitOperation::UnstageAll => Chore::UnstageAll,
        }
    }
}

/// Something that is asked of a repository, and what is said of it.
#[derive(Debug, PartialEq, Eq)]
pub struct GitRequest {
    pub operation: GitOperation,
    pub description: String,
}

/// What comes of a command.
#[derive(Debug)]
pub struct GitStep {
    pub outcome: PanelOutcome,
    pub request: Option<GitRequest>,
}

/// The plain values of a request that may be there.
pub open spec fn request_view(request: Option<GitRequest>) -> Option<(Chore, Seq<char>)> {
    match request {
        Some(request) => Some((request.operation@, request.description@)),
        None => None,
    }
}

/// What a command asks of the repository.
pub open spec fn asked(command: Command, file: Option<GitFile>) -> Option<(Chore, Seq<char>)> {
    match command {
        Command::GitToggleStaged => match file {
            Some(file) => if file.section == GitSection::Staged {
                Some((Chore::Unstage(file.path), "unstaged"@ + " "@ + file.path))
            } else {
                Some((Chore::Stage(file.path), "staged"@ + " "@ + file.path))
            },
            None => None,
        },
        Command::GitStageAll => Some((Chore::StageAll, "staged all changes"@)),
        Command::GitUnstageAll => Some((Chore::UnstageAll, "unstaged all changes"@)),
        _ => None,
    }
}

/// Whether something is staged.
pub open spec fn has_staged(rows: Seq<GitLine>) -> bool {
    exists|k: int|
        0 <= k < rows.len() && #[trigger] rows[k] is File && rows[k]->File_0.section
            == GitSection::Staged
}

/// What a command shows.
pub open spec fn commanded(
    command: Command,
    rows: Seq<GitLine>,
    file: Option<GitFile>,
    scene: Scene,
) -> Scene {
    match command {
        Command::GitToggleStaged => if file is None {
            scene.said("no entry selected"@)
        } else {
            scene
        },
        Command::GitCommit => if has_staged(rows) {
            scene.showing(prompt_layer("Commit message"@, Seq::empty(), Purpose::GitCommit))
        } else {
            scene.said("nothing staged to commit"@)
        },
        _ => scene,
    }
}

/// The selection after a command.
pub open spec fn moved(command: Command, rows: Seq<GitLine>, choice: GitChoice) -> GitChoice {
    let settled = choice.settled(rows);
    match selected_row(rows, choice.selected) {
        Some(index) => match command {
            Command::PanelSelectNext => settled.choosing(rows, nearest_file(rows, index, true)),
            Command::PanelSelectPrevious => settled.choosing(
                rows,
                nearest_file(rows, index, false),
            ),
            _ => settled,
        },
        None => settled,
    }
}

/// A row as it is drawn.
pub open spec fn line_row(line: GitLine) -> RowText {
    match line {
        GitLine::Header(section) => row(section.heading(), false),
        GitLine::File(file) => row(
            "  "@.push(file.code) + " "@ + file.path + "  +"@ + decimal(file.additions as nat)
                + " -"@ + decimal(file.deletions as nat),
            true,
        ),
    }
}

/// The rows as they are drawn.
pub open spec fn line_rows(lines: Seq<GitLine>) -> Seq<RowText> {
    Seq::new(lines.len(), |i: int| line_row(lines[i]))
}

/// The title of the panel.
pub open spec fn git_title(repository: Repository) -> Seq<char> {
    " Git \u{b7} "@ + repository.display_name@ + " \u{b7} "@ + (match repository.branch {
        Some(branch) => branch@,
        None => "detached HEAD"@,
    }) + " "@
}

/// The panel of what has changed in the repository.
#[derive(Debug)]
pub struct GitPanel {
    selected: Option<(GitSection, String)>,
    first_row: usize,
}

impl Default for GitPanel {
    fn default() -> (panel: Self)
        ensures
            panel.state() == (GitChoice { selected: None, first_row: 0 }),
    {
        GitPanel { selected: None, first_row: 0 }
    }
}

fn find_entry(rows: &Vec<Row>, selected: &Option<(GitSection, String)>) -> (index: Option<usize>)
    ensures
        match index {
            Some(index) => index < rows@.len() && selected_row(
                git_lines(rows@),
                choice_view(*selected),
            ) == Some(index as int) && rows@[index as int] is Entry,
            None => selected_row(git_lines(rows@), choice_view(*selected)) is None,
        },
{
    let ghost all = git_lines(rows@);
    let ghost any = |line: GitLine| file_row(line);
    let ghost own = |line: GitLine|
        is_file(line, choice_view(*selected).unwrap().0, choice_view(*selected).unwrap().1);
    let mut first: Option<usize> = None;
    let mut found: Option<usize> = None;
    let mut i: usize = 0;
    assert(all.take(0) =~= Seq::<GitLine>::empty());
    while i < rows.len()
        invariant
            i <= rows@.len(),
            all == git_lines(rows@),
            any == |line: GitLine| file_row(line),
            own == |line: GitLine|
                is_file(line, choice_view(*selected).unwrap().0, choice_view(*selected).unwrap().1),
            match first {
                Some(index) => index < i && position(all.take(i as int), any) == Some(
                    index as int,
                ) && rows@[index as int] is Entry,
                None => position(all.take(i as int), any) is None,
            },
            selected is None ==> found is None,
            selected is Some ==> match found {
                Some(index) => index < i && position(all.take(i as int), own) == Some(
                    index as int,
                ) && rows@[index as int] is Entry,
                None => position(all.take(i as int), own) is None,
            },
        decreases rows@.len() - i,
    {
        proof {
            assert(all.take(i + 1).drop_last() =~= all.take(i as int));
            assert(all.take(i + 1).last() == rows@[i as int]@);
        }
        if let Row::Entry(entry) = &rows[i] {
            if first.is_none() {
                first = Some(i);
            }
            if found.is_none() {
                if let Some((section, path)) = selected {
                    if entry.section == *section && same_text(
                        entry.repo_path.as_str(),
                        path.as_str(),
                    ) {
                        found = Some(i);
                    }
                }
            }
        }
        i += 1;
    }
    assert(all.take(i as int) =~= all);
    match found {
        Some(index) => Some(index),
        None => first,
    }
}

fn any_staged(rows: &Vec<Row>) -> (result: bool)
    ensures
        result == has_staged(git_lines(rows@)),
{
    let ghost all = git_lines(rows@);
    let mut i: usize = 0;
    while i < rows.len()
        invariant
            i <= rows@.len(),
            all == git_lines(rows@),
            forall|k: int|
                0 <= k < i ==> !(#[trigger] all[k] is File && all[k]->File_0.section
                    == GitSection::Staged),
        decreases rows@.len() - i,
    {
        assert(all[i as int] == rows@[i as int]@);
        if let Row::Entry(entry) = &rows[i] {
            if entry.section == GitSection::Staged {
                return true;
            }
        }
        i += 1;
    }
    false
}

fn row_text(item: &Row) -> (text: String)
    ensures
        text@ == line_row(item@).text,
{
    match item {
        Row::Header(section) => section.title().to_string(),
        Row::Entry(entry) => {
            let mut text = "  ".to_string();
            text.push(entry.status_code);
            text.append(" ");
            text.append(entry.repo_path.as_str());
            text.append("  +");
            push_decimal(&mut text, entry.additions);
            text.append(" -");
            push_decimal(&mut text, entry.deletions);
            text
        },
    }
}

impl GitPanel {
    pub closed spec fn state(&self) -> GitChoice {
        GitChoice { selected: choice_view(self.selected), first_row: self.first_row as int }
    }

    fn select(&mut self, rows: &Vec<Row>, index: usize)
        ensures
            final(self).state() == old(self).state().choosing(
                git_lines(rows@),
                Some(index as int),
            ),
    {
        if index < rows.len() {
            assert(git_lines(rows@)[index as int] == rows@[index as int]@);
            if let Row::Entry(entry) = &rows[index] {
                self.selected = Some((entry.section, entry.repo_path.clone()));
            }
        }
    }

    fn select_within(&mut self, rows: &Vec<Row>) -> (index: Option<usize>)
        ensures
            final(self).state() == old(self).state().settled(git_lines(rows@)),
            match index {
                Some(index) => index < rows@.len() && rows@[index as int] is Entry && selected_row(
                    git_lines(rows@),
                    old(self).state().selected,
                ) == Some(index as int),
                None => selected_row(git_lines(rows@), old(self).state().selected) is None,
            },
    {
        let index = find_entry(rows, &self.selected);
        if let Some(index) = index {
            self.select(rows, index);
        }
        index
    }

    /// Runs a command over a repository, if there is one.
    pub fn execute(&mut self, ctx: &mut Ctx, command: Command, repository: &Option<Repository>) -> (
        step: GitStep)
        ensures
            match repository {
                None => final(self).state() == old(self).state() && final(ctx)@ == old(ctx)@.said(
                    "no git repository"@,
                ) && step.outcome@ == Outcome::Consumed && step.request is None,
                Some(repository) => {
                    let rows = git_rows(repository.statuses@);
                    let file = old(self).state().file(rows);
                    &&& final(self).state() == moved(command, rows, old(self).state())
                    &&& final(ctx)@ == commanded(command, rows, file, old(ctx)@)
                    &&& step.outcome@ == if command == Command::PanelActivate && file is Some {
                        Outcome::Open(joined(repository.directory@, file->0.path))
                    } else {
                        Outcome::Consumed
                    }
                    &&& request_view(step.request) == asked(command, file)
                },
            },
    {
        let repository = match repository {
            Some(repository) => repository,
            None => {
                ctx.say("no git repository");
                return GitStep { outcome: PanelOutcome::Consumed, request: None };
            },
        };
        let rows = rows(&repository.statuses);
        let ghost lines = git_lines(rows@);
        let index = self.select_within(&rows);
        let selected: Option<&GitEntry> = match index {
            Some(index) => {
                assert(lines[index as int] == rows@[index as int]@);
                match &rows[index] {
                    Row::Entry(entry) => Some(entry),
                    Row::Header(_) => None,
                }
            },
            None => None,
        };
        let mut outcome = PanelOutcome::Consumed;
        let mut request: Option<GitRequest> = None;
        match command {
            Command::PanelSelectNext => {
                if let Some(index) = index {
                    if let Some(next) = next_entry(&rows, index, true) {
                        self.select(&rows, next);
                    }
                }
            },
            Command::PanelSelectPrevious => {
                if let Some(index) = index {
                    if let Some(previous) = next_entry(&rows, index, false) {
                        self.select(&rows, previous);
                    }
                }
            },
            Command::PanelActivate => {
                if let Some(entry) = selected {
                    outcome = PanelOutcome::Open(
                        join(repository.directory.as_str(), entry.repo_path.as_str()),
                    );
                }
            },
            Command::GitToggleStaged => {
                match selected {
                    Some(entry) => {
                        let path = entry.repo_path.clone();
                        if entry.section == GitSection::Staged {
                            let mut description = "unstaged".to_string();
                            description.append(" ");
                            description.append(path.as_str());
                            request = Some(
                                GitRequest { operation: GitOperation::Unstage(path), description },
                            );
                        } else {
                            let mut description = "staged".to_string();
                            description.append(" ");
                            description.append(path.as_str());
                            request = Some(
                                GitRequest { operation: GitOperation::Stage(path), description },
                            );
                        }
                    },
                    None => {
                        ctx.say("no entry selected");
                    },
                }
            },
            Command::GitStageAll => {
                request = Some(
                    GitRequest {
                        operation: GitOperation::StageAll,
                        description: "staged all changes".to_string(),
                    },
                );
            },
            Command::GitUnstageAll => {
                request = Some(
                    GitRequest {
                        operation: GitOperation::UnstageAll,
                        description: "unstaged all changes".to_string(),
                    },
                );
            },
            Command::GitCommit => {
                if any_staged(&rows) {
                    proof {
                        reveal_strlit("");
                        assert(""@ =~= Seq::<char>::empty());
                    }
                    ctx.show(prompt("Commit message", "", PromptTarget::GitCommit));
                } else {
                    ctx.say("nothing staged to commit");
                }
            },
            _ => {},
        }
        GitStep { outcome, request }
    }

    /// The prompt for a commit message was submitted: the message to commit
    /// with, and what is said of it then.
    pub fn submit_commit(&mut self, ctx: &mut Ctx, message: &str, has_repository: bool) -> (commit:
        Option<(String, String)>)
        ensures
            final(self).state() == old(self).state(),
            ({
                let text = trimmed(message@);
                if text.len() == 0 {
                    commit is None && final(ctx)@ == old(ctx)@.remarked(
                        Some("enter a commit message"@),
                    )
                } else if !has_repository {
                    commit is None && final(ctx)@ == old(ctx)@.remarked(Some("no git repository"@))
                } else {
                    match commit {
                        Some((message, description)) => message@ == text && description@
                            == "committed: "@ + text && final(ctx)@ == old(ctx)@.popped(),
                        None => false,
                    }
                }
            }),
    {
        let message = trim(message);
        if message.as_str().unicode_len() == 0 {
            ctx.set_feedback("enter a commit message");
            return None;
        }
        if !has_repository {
            ctx.set_feedback("no git repository");
            return None;
        }
        ctx.pop();
        let mut description = "committed: ".to_string();
        description.append(message.as_str());
        Some((message, description))
    }

    /// Says how what was asked of the repository ended.
    pub fn update(&mut self, ctx: &mut Ctx, event: GitPanelEvent)
        ensures
            final(self).state() == old(self).state(),
            final(ctx)@ == old(ctx)@.said(
                match event->result {
                    Ok(_) => event->description@,
                    Err(error) => event->description@ + " failed: "@ + error@,
                },
            ),
    {
        let GitPanelEvent::Finished { description, result } = event;
        match result {
            Ok(_) => ctx.say(description.as_str()),
            Err(error) => {
                let mut text = description;
                text.append(" failed: ");
                text.append(error.as_str());
                ctx.say(text.as_str());
            },
        }
    }

    /// The rows to draw, with the first of those that fit.
    pub fn view(&mut self, repository: &Option<Repository>, row_budget: usize) -> (snapshot:
        OverlaySnapshot)
        ensures
            match repository {
                None => {
                    &&& final(self).state() == (GitChoice { first_row: 0, ..old(self).state() })
                    &&& snapshot@.title == " Git "@
                    &&& snapshot@.rows == seq![row("no git repository"@, false)]
                    &&& snapshot@.selected is None
                },
                Some(repository) => {
                    let lines = git_rows(repository.statuses@);
                    let selected = selected_row(lines, old(self).state().selected);
                    &&& final(self).state() == (GitChoice {
                        first_row: window_start_of(
                            lines.len() as int,
                            selected,
                            row_budget as int,
                        ),
                        ..old(self).state().settled(lines)
                    })
                    &&& snapshot@.title == git_title(*repository)
                    &&& snapshot@.rows == line_rows(lines)
                    &&& match snapshot@.selected {
                        Some(index) => selected == Some(index as int),
                        None => selected is None,
                    }
                },
            },
    {
        let repository = match repository {
            Some(repository) => repository,
            None => {
                self.first_row = 0;
                let mut list: Vec<OverlayRow> = Vec::new();
                push_row(&mut list, "no git repository".to_string(), false);
                assert(row_texts(list@) =~= seq![row("no git repository"@, false)]);
                return OverlaySnapshot { title: " Git ".to_string(), rows: list, selected: None };
            },
        };
        let rows = rows(&repository.statuses);
        let ghost lines = git_lines(rows@);
        let selected = self.select_within(&rows);
        self.first_row = window_start(rows.len(), selected, row_budget);
        let mut title = " Git \u{b7} ".to_string();
        title.append(repository.display_name.as_str());
        title.append(" \u{b7} ");
        match &repository.branch {
            Some(branch) => title.append(branch.as_str()),
            None => title.append("detached HEAD"),
        }
        title.append(" ");
        let mut list: Vec<OverlayRow> = Vec::new();
        let mut i: usize = 0;
        while i < rows.len()
            invariant
                i <= rows@.len(),
                lines == git_lines(rows@),
                row_texts(list@) =~= line_rows(lines).take(i as int),
            decreases rows@.len() - i,
        {
            assert(lines[i as int] == rows@[i as int]@);
            let enabled = match &rows[i] {
                Row::Header(_) => false,
                Row::Entry(_) => true,
            };
            let text = row_text(&rows[i]);
            push_row(&mut list, text, enabled);
            assert(line_row(lines[i as int]) == row(text@, enabled));
            i += 1;
        }
        assert(row_texts(list@) =~= line_rows(lines));
        OverlaySnapshot { title, rows: list, selected }
    }

    /// A click on a row of the panel selects the file there.
    pub fn click(&mut self, repository: &Option<Repository>, screen_row: usize)
        ensures
            final(self).state() == match repository {
                Some(repository) => old(self).state().choosing(
                    git_rows(repository.statuses@),
                    Some(old(self).state().first_row + screen_row),
                ),
                None => old(self).state(),
            },
    {
        if let Some(repository) = repository {
            let rows = rows(&repository.statuses);
            let total: usize = rows.len();
            if self.first_row < total && screen_row < total - self.first_row {
                let index: usize = self.first_row + screen_row;
                self.select(&rows, index);
            }
        }
    }
}

/// The selected file stays selected as long as it is listed, whatever else
/// changes.
pub proof fn the_selection_follows_its_file(choice: GitChoice, rows: Seq<GitLine>, index: int)
    requires
        0 <= index < rows.len(),
        choice.selected is Some,
        is_file(
            rows[index],
            choice.selected.unwrap().0,
            choice.selected.unwrap().1,
        ),
    ensures
        choice.settled(rows) == choice,
{
    let section = choice.selected.unwrap().0;
    let path = choice.selected.unwrap().1;
    lemma_position(rows, |line: GitLine| is_file(line, section, path));
}

/// Where any file is listed, one is selected, and it is one that is listed.
pub proof fn a_listed_file_is_selected(choice: GitChoice, rows: Seq<GitLine>, index: int)
    requires
        0 <= index < rows.len(),
        rows[index] is File,
    ensures
        selected_row(rows, choice.selected) is Some,
        0 <= selected_row(rows, choice.selected)->0 < rows.len(),
        rows[selected_row(rows, choice.selected)->0] is File,
{
    if choice.selected is Some {
        let section = choice.selected.unwrap().0;
        let path = choice.selected.unwrap().1;
        lemma_position(rows, |line: GitLine| is_file(line, section, path));
    }
    lemma_position(rows, |line: GitLine| file_row(line));
}

} // verus!
