//! Headless probes: what single-shot inspections of the running editor wait
//! for, look for, and insist on.

pub mod report;
pub mod script;

use vstd::prelude::*;
use vstd::string::*;

use crate::features::sessions::{hex_string, hex_text};
use crate::geometry::greatest;
use crate::paths::{join, joined};
use crate::project_search::{sha256_of, ContentFingerprint};
use crate::text::{
    byte_len, char_len, char_width, chars_of, has_at, holds, holds_text, lemma_utf8_len_bounds,
    lemma_utf8_len_prefix, lemma_utf8_len_push, matches_at, optional_text, same_text, texts,
    utf8_len,
};

verus! {

broadcast use vstd::string::group_string_axioms;

/// The settings of a language that are in effect for a document.
#[derive(Debug, PartialEq, Eq)]
pub struct EffectiveLanguageSettings {
    pub tab_size: u32,
    pub format_on_save: String,
    pub completion_lsp: bool,
    pub show_completions_on_input: bool,
}

/// The plain values of some settings.
pub struct SettingsView {
    pub tab_size: u32,
    pub format_on_save: Seq<char>,
    pub completion_lsp: bool,
    pub show_completions_on_input: bool,
}

impl View for EffectiveLanguageSettings {
    type V = SettingsView;

    open spec fn view(&self) -> SettingsView {
        SettingsView {
            tab_size: self.tab_size,
            format_on_save: self.format_on_save@,
            completion_lsp: self.completion_lsp,
            show_completions_on_input: self.show_completions_on_input,
        }
    }
}

/// Whether two settings are the same.
pub fn same_settings(a: &EffectiveLanguageSettings, b: &EffectiveLanguageSettings) -> (same: bool)
    ensures
        same == (a@ == b@),
{
    a.tab_size == b.tab_size && same_text(a.format_on_save.as_str(), b.format_on_save.as_str())
        && a.completion_lsp == b.completion_lsp && a.show_completions_on_input
        == b.show_completions_on_input
}

/// What a channel of events gives.
#[derive(Debug)]
pub enum ConfigurationEvent {
    /// A file of the configuration was read again.
    Reloaded { kind: String, result: Result<String, String> },
    /// Something else, or nothing yet.
    Other,
    Closed,
}

/// The message of an event, if it is the one that is waited for.
pub open spec fn awaited(event: ConfigurationEvent, kind: Seq<char>, success: bool) -> Option<
    Seq<char>,
> {
    match event {
        ConfigurationEvent::Reloaded { kind: own, result } => if own@ == kind {
            match result {
                Ok(status) => if success {
                    Some(status@)
                } else {
                    None
                },
                Err(error) => if success {
                    None
                } else {
                    Some(error@)
                },
            }
        } else {
            None
        },
        _ => None,
    }
}

/// The message of an event, if it is the one that is waited for.
pub fn awaited_message(event: &ConfigurationEvent, kind: &str, success: bool) -> (message: Option<
    String,
>)
    ensures
        optional_text(message) == awaited(*event, kind@, success),
{
    match event {
        ConfigurationEvent::Reloaded { kind: own, result } => {
            if !same_text(own.as_str(), kind) {
                return None;
            }
            match result {
                Ok(status) => if success {
                    Some(status.clone())
                } else {
                    None
                },
                Err(error) => if success {
                    None
                } else {
                    Some(error.clone())
                },
            }
        },
        _ => None,
    }
}

/// What a channel of actions gives.
#[derive(Debug)]
pub enum ActionEvent {
    /// The name of an action that was dispatched.
    Action(String),
    Other,
    Closed,
}

/// A language server as the project lists it.
#[derive(Debug)]
pub struct ServerStatus {
    pub name: String,
    pub has_process: bool,
}

/// Whether the server for Rust runs.
pub open spec fn analyzer_runs(list: Seq<ServerStatus>) -> bool {
    exists|i: int|
        0 <= i < list.len() && (#[trigger] list[i]).name@ == "rust-analyzer"@ && list[i].has_process
}

/// Whether the server for Rust runs.
pub fn is_analyzer_ready(list: &Vec<ServerStatus>) -> (ready: bool)
    ensures
        ready == analyzer_runs(list@),
{
    let mut i: usize = 0;
    while i < list.len()
        invariant
            i <= list@.len(),
            forall|k: int|
                0 <= k < i ==> !((#[trigger] list@[k]).name@ == "rust-analyzer"@
                    && list@[k].has_process),
        decreases list@.len() - i,
    {
        if same_text(list[i].name.as_str(), "rust-analyzer") && list[i].has_process {
            return true;
        }
        i += 1;
    }
    false
}

/// The first place of a part in a text, from an index on.
pub open spec fn first_place(s: Seq<char>, part: Seq<char>, from: int) -> Option<int>
    decreases s.len() - from,
{
    if from >= s.len() {
        None
    } else if has_at(s, part, from) {
        Some(from)
    } else {
        first_place(s, part, from + 1)
    }
}

/// The byte offset behind the first marker in a text.
pub open spec fn behind_marker(text: Seq<char>) -> Option<nat> {
    match first_place(text, "stub_"@, 0) {
        Some(index) => Some(utf8_len(text.take(index)) + 5),
        None => None,
    }
}

/// The byte offset behind the first marker in a text.
pub fn marker_position(text: &str) -> (position: Option<usize>)
    ensures
        match position {
            Some(position) => behind_marker(text@) == Some(position as nat),
            None => behind_marker(text@) is None,
        },
{
    let chars = chars_of(text);
    let marker = chars_of("stub_");
    proof {
        reveal_strlit("stub_");
    }
    let total: usize = byte_len(text);
    let mut offset: usize = 0;
    let mut i: usize = 0;
    assert(chars@.take(0) =~= Seq::<char>::empty());
    while i < chars.len()
        invariant
            i <= chars@.len(),
            chars@ == text@,
            marker@ == "stub_"@,
            "stub_"@.len() == 5,
            total == utf8_len(text@),
            offset == utf8_len(text@.take(i as int)),
            first_place(text@, "stub_"@, 0) == first_place(text@, "stub_"@, i as int),
        decreases chars@.len() - i,
    {
        proof {
            lemma_utf8_len_prefix(text@, i as int, i + 1);
            assert(text@.take(i + 1) =~= text@.take(i as int).push(text@[i as int]));
            lemma_utf8_len_push(text@.take(i as int), text@[i as int]);
        }
        if matches_at(chars.as_slice(), marker.as_slice(), i) {
            proof {
                assert(text@ =~= text@.take(i as int) + text@.skip(i as int));
                crate::text::lemma_utf8_len_add(text@.take(i as int), text@.skip(i as int));
                lemma_utf8_len_bounds(text@.skip(i as int));
            }
            return Some(offset + 5);
        }
        offset += char_len(chars[i]);
        i += 1;
    }
    None
}

/// The lines that end in a text.
pub open spec fn line_breaks(s: Seq<char>) -> nat
    decreases s.len(),
{
    if s.len() == 0 {
        0
    } else if s.last() == '\n' {
        line_breaks(s.drop_last()) + 1
    } else {
        line_breaks(s.drop_last())
    }
}

/// The bytes behind the last line break of a text.
pub open spec fn last_line_bytes(s: Seq<char>) -> nat
    decreases s.len(),
{
    if s.len() == 0 || s.last() == '\n' {
        0
    } else {
        last_line_bytes(s.drop_last()) + char_width(s.last())
    }
}

proof fn lemma_last_line(s: Seq<char>)
    ensures
        last_line_bytes(s) <= utf8_len(s),
        line_breaks(s) <= s.len(),
    decreases s.len(),
{
    if s.len() > 0 {
        lemma_last_line(s.drop_last());
        assert(s.drop_last().push(s.last()) =~= s);
        lemma_utf8_len_push(s.drop_last(), s.last());
    }
}

/// The row and the column in bytes of the end of a text.
pub fn end_position(prefix: &str) -> (position: (usize, usize))
    ensures
        position.0 == line_breaks(prefix@),
        position.1 == last_line_bytes(prefix@),
{
    let chars = chars_of(prefix);
    let total: usize = byte_len(prefix);
    let mut row: usize = 0;
    let mut column: usize = 0;
    let mut i: usize = 0;
    assert(chars@.take(0) =~= Seq::<char>::empty());
    while i < chars.len()
        invariant
            i <= chars@.len(),
            chars@ == prefix@,
            total == utf8_len(prefix@),
            row == line_breaks(prefix@.take(i as int)),
            row <= i,
            column == last_line_bytes(prefix@.take(i as int)),
        decreases chars@.len() - i,
    {
        proof {
            assert(prefix@.take(i + 1).drop_last() =~= prefix@.take(i as int));
            lemma_last_line(prefix@.take(i + 1));
            lemma_utf8_len_prefix(prefix@, i as int, i + 1);
        }
        if chars[i] == '\n' {
            row += 1;
            column = 0;
        } else {
            column += char_len(chars[i]);
        }
        i += 1;
    }
    assert(prefix@.take(i as int) =~= prefix@);
    (row, column)
}

/// Whether the server is up before the fault of a scenario shows.
pub open spec fn starts_ready(scenario: Seq<char>) -> bool {
    ||| scenario == "request-error"@
    ||| scenario == "hang-request"@
    ||| scenario == "crash-request"@
    ||| scenario == "malformed-response"@
    ||| scenario == "large-payloads"@
    ||| scenario == "formatter-error"@
    ||| scenario == "huge-stderr"@
    ||| scenario == "restart-once"@
}

/// How long a scenario waits for the server, in milliseconds.
pub open spec fn ready_time(scenario: Seq<char>) -> u64 {
    if starts_ready(scenario) {
        10_000
    } else {
        500
    }
}

/// How long a scenario waits for the server, in milliseconds.
pub fn ready_timeout(scenario: &str) -> (milliseconds: u64)
    ensures
        milliseconds == ready_time(scenario@),
{
    if same_text(scenario, "request-error") || same_text(scenario, "hang-request") || same_text(
        scenario,
        "crash-request",
    ) || same_text(scenario, "malformed-response") || same_text(scenario, "large-payloads")
        || same_text(scenario, "formatter-error") || same_text(scenario, "huge-stderr")
        || same_text(scenario, "restart-once") {
        10_000
    } else {
        500
    }
}

/// How long a scenario waits for an answer, in milliseconds.
pub open spec fn answer_time(scenario: Seq<char>) -> u64 {
    if holds(scenario, "hang"@) {
        250
    } else {
        3_000
    }
}

/// How long a scenario waits for an answer, in milliseconds.
pub fn request_timeout(scenario: &str) -> (milliseconds: u64)
    ensures
        milliseconds == answer_time(scenario@),
{
    if holds_text(scenario, "hang") {
        250
    } else {
        3_000
    }
}

/// The text that a scenario goes on to edit.
pub fn edited_text(original: &str, scenario: &str) -> (text: String)
    ensures
        text@ == original@ + "// continued after "@ + scenario@ + "\n"@,
{
    let mut text = original.to_string();
    text.append("// continued after ");
    text.append(scenario);
    text.append("\n");
    text
}

/// Whether an edit, its undo, and its redo went as they must.
pub fn is_history_intact(
    dirty: bool,
    original: &str,
    edited: &str,
    after_undo: &str,
    after_redo: &str,
) -> (intact: bool)
    ensures
        intact == (dirty && after_undo@ == original@ && after_redo@ == edited@),
{
    dirty && same_text(after_undo, original) && same_text(after_redo, edited)
}

/// Whether a save that its formatter failed left the file and the document as
/// they were.
pub fn is_failed_save_harmless(dirty: bool, disk: &str, original_disk: &str) -> (harmless: bool)
    ensures
        harmless == (dirty && disk@ == original_disk@),
{
    dirty && same_text(disk, original_disk)
}

/// Whether a save went as it must.
pub fn is_saved(dirty: bool, disk: &str, expected: &str) -> (saved: bool)
    ensures
        saved == (!dirty && disk@ == expected@),
{
    same_text(disk, expected) && !dirty
}

/// Whether an editor closed in time while its server failed.
pub fn is_closed_in_time(elapsed_ms: u64) -> (in_time: bool)
    ensures
        in_time == (elapsed_ms <= 250),
{
    elapsed_ms <= 250
}

/// What came of a request for completions.
#[derive(Debug)]
pub enum RequestEnd {
    /// The documentation of each completion.
    Completed(Vec<Option<String>>),
    Failed(String),
    TimedOut,
}

/// What is reported of a request for completions.
#[derive(Debug, PartialEq, Eq)]
pub struct RequestReport {
    pub outcome: String,
    pub completion_count: usize,
    pub max_documentation_bytes: usize,
}

/// The length in bytes of the longest text.
pub open spec fn longest(list: Seq<Option<String>>) -> int
    decreases list.len(),
{
    if list.len() == 0 {
        0
    } else {
        greatest(
            longest(list.drop_last()),
            match list.last() {
                Some(text) => utf8_len(text@) as int,
                None => 0,
            },
        )
    }
}

/// What came of a request, in words.
pub open spec fn request_words(end: RequestEnd) -> Seq<char> {
    match end {
        RequestEnd::Completed(_) => "ok"@,
        RequestEnd::Failed(error) => "error: "@ + error@,
        RequestEnd::TimedOut => "cancelled"@,
    }
}

fn longest_of(list: &Vec<Option<String>>) -> (length: usize)
    ensures
        length == longest(list@),
{
    let mut length: usize = 0;
    let mut i: usize = 0;
    assert(list@.take(0) =~= Seq::<Option<String>>::empty());
    while i < list.len()
        invariant
            i <= list@.len(),
            length == longest(list@.take(i as int)),
        decreases list@.len() - i,
    {
        assert(list@.take(i + 1).drop_last() =~= list@.take(i as int));
        if let Some(text) = &list[i] {
            let own: usize = byte_len(text.as_str());
            if own > length {
                length = own;
            }
        }
        i += 1;
    }
    assert(list@.take(i as int) =~= list@);
    length
}

/// The plain values of what is reported of a request for completions.
pub struct RequestView {
    pub outcome: Seq<char>,
    pub completion_count: int,
    pub max_documentation_bytes: int,
}

impl View for RequestReport {
    type V = RequestView;

    open spec fn view(&self) -> RequestView {
        RequestView {
            outcome: self.outcome@,
            completion_count: self.completion_count as int,
            max_documentation_bytes: self.max_documentation_bytes as int,
        }
    }
}

/// What is reported of a request for completions.
pub open spec fn reported(end: RequestEnd) -> RequestView {
    RequestView {
        outcome: request_words(end),
        completion_count: match end {
            RequestEnd::Completed(list) => list@.len() as int,
            _ => 0,
        },
        max_documentation_bytes: match end {
            RequestEnd::Completed(list) => longest(list@),
            _ => 0,
        },
    }
}

/// Reports a request for completions.
pub fn request_report(end: &RequestEnd) -> (report: RequestReport)
    ensures
        report@ == reported(*end),
{
    match end {
        RequestEnd::Completed(list) => RequestReport {
            outcome: "ok".to_string(),
            completion_count: list.len(),
            max_documentation_bytes: longest_of(list),
        },
        RequestEnd::Failed(error) => {
            let mut outcome = "error: ".to_string();
            outcome.append(error.as_str());
            RequestReport { outcome, completion_count: 0, max_documentation_bytes: 0 }
        },
        RequestEnd::TimedOut => RequestReport {
            outcome: "cancelled".to_string(),
            completion_count: 0,
            max_documentation_bytes: 0,
        },
    }
}

/// Texts under paths, each path once.
#[derive(Debug)]
pub struct SourceText {
    pub path: String,
    pub text: String,
}

/// The text under a path.
pub open spec fn text_at(list: Seq<SourceText>, path: Seq<char>) -> Option<Seq<char>>
    decreases list.len(),
{
    if list.len() == 0 {
        None
    } else if list.last().path@ == path {
        Some(list.last().text@)
    } else {
        text_at(list.drop_last(), path)
    }
}

/// The paths whose text is another than before.
pub open spec fn changed(before: Seq<SourceText>, after: Seq<SourceText>) -> Seq<Seq<char>>
    decreases after.len(),
{
    if after.len() == 0 {
        Seq::empty()
    } else {
        let own = after.last();
        let earlier = changed(before, after.drop_last());
        if text_at(before, own.path@) == Some(own.text@) {
            earlier
        } else {
            earlier.push(own.path@)
        }
    }
}

/// The text under a path.
pub fn find_text<'a>(list: &'a Vec<SourceText>, path: &str) -> (text: Option<&'a str>)
    ensures
        match text {
            Some(text) => text_at(list@, path@) == Some(text@),
            None => text_at(list@, path@) is None,
        },
{
    let mut i: usize = list.len();
    assert(list@.take(i as int) =~= list@);
    while i > 0
        invariant
            i <= list@.len(),
            text_at(list@, path@) == text_at(list@.take(i as int), path@),
        decreases i,
    {
        assert(list@.take(i as int).drop_last() =~= list@.take(i - 1));
        if same_text(list[i - 1].path.as_str(), path) {
            return Some(list[i - 1].text.as_str());
        }
        i -= 1;
    }
    None
}

/// The paths whose text is another than before.
pub fn changed_paths(before: &Vec<SourceText>, after: &Vec<SourceText>) -> (paths: Vec<String>)
    ensures
        texts(paths@) == changed(before@, after@),
{
    let mut paths: Vec<String> = Vec::new();
    let mut i: usize = 0;
    assert(after@.take(0) =~= Seq::<SourceText>::empty());
    assert(texts(paths@) =~= Seq::<Seq<char>>::empty());
    while i < after.len()
        invariant
            i <= after@.len(),
            texts(paths@) == changed(before@, after@.take(i as int)),
        decreases after@.len() - i,
    {
        let own = &after[i];
        let ghost earlier = paths@;
        assert(after@.take(i + 1).drop_last() =~= after@.take(i as int));
        let same = match find_text(before, own.path.as_str()) {
            Some(text) => same_text(text, own.text.as_str()),
            None => false,
        };
        if !same {
            let path = own.path.clone();
            paths.push(path);
            assert(texts(paths@) =~= texts(earlier).push(own.path@));
        }
        i += 1;
    }
    assert(after@.take(i as int) =~= after@);
    paths
}

/// What a request for places looks for.
#[derive(Clone, Copy, Debug, PartialEq, Eq, Structural)]
pub enum LocationRequestKind {
    Definition,
    TypeDefinition,
    References,
    ProjectSymbols,
}

impl LocationRequestKind {
    pub open spec fn word(self) -> Seq<char> {
        match self {
            LocationRequestKind::Definition => "definitions"@,
            LocationRequestKind::TypeDefinition => "type_definitions"@,
            LocationRequestKind::References => "references"@,
            LocationRequestKind::ProjectSymbols => "project_symbols"@,
        }
    }

    /// The key under which the places are reported.
    pub fn key(self) -> (key: &'static str)
        ensures
            key@ == self.word(),
    {
        match self {
            LocationRequestKind::Definition => "definitions",
            LocationRequestKind::TypeDefinition => "type_definitions",
            LocationRequestKind::References => "references",
            LocationRequestKind::ProjectSymbols => "project_symbols",
        }
    }
}

/// What came of one way to name the root of a repository.
#[derive(Debug)]
pub struct RootTrial {
    pub id: String,
    /// The directory in which the editor was started.
    pub cwd: String,
    /// The path that it was given, if any.
    pub argument: Option<String>,
    pub path_count: usize,
    /// How many of the paths could not be opened.
    pub error_count: usize,
    pub resolved_path: String,
    /// Whether the editor came up with a repository.
    pub has_repository: bool,
    pub repository_root: String,
    pub worktree_id: String,
    pub directory_opened_as_file: bool,
}

/// What is wrong with the ways to name a root.
#[derive(Debug, PartialEq, Eq)]
pub enum RootFault {
    NoInput,
    PathCount { id: String, count: usize },
    NotOpened { id: String },
    NoRepository { id: String },
    Escaped { id: String },
    OpenedAsFile,
    SeveralWorktrees,
}

/// The plain values of a [`RootFault`].
pub enum RootTrouble {
    NoInput,
    PathCount { id: Seq<char>, count: int },
    NotOpened { id: Seq<char> },
    NoRepository { id: Seq<char> },
    Escaped { id: Seq<char> },
    OpenedAsFile,
    SeveralWorktrees,
}

impl View for RootFault {
    type V = RootTrouble;

    open spec fn view(&self) -> RootTrouble {
        match *self {
            RootFault::NoInput => RootTrouble::NoInput,
            RootFault::PathCount { id, count } => RootTrouble::PathCount {
                id: id@,
                count: count as int,
            },
            RootFault::NotOpened { id } => RootTrouble::NotOpened { id: id@ },
            RootFault::NoRepository { id } => RootTrouble::NoRepository { id: id@ },
            RootFault::Escaped { id } => RootTrouble::Escaped { id: id@ },
            RootFault::OpenedAsFile => RootTrouble::OpenedAsFile,
            RootFault::SeveralWorktrees => RootTrouble::SeveralWorktrees,
        }
    }
}

/// What is wrong with one way to name a root.
pub open spec fn trial_trouble(trial: RootTrial, root: Seq<char>) -> Option<RootTrouble> {
    if trial.path_count != 1 {
        Some(RootTrouble::PathCount { id: trial.id@, count: trial.path_count as int })
    } else if trial.error_count > 0 {
        Some(RootTrouble::NotOpened { id: trial.id@ })
    } else if !trial.has_repository {
        Some(RootTrouble::NoRepository { id: trial.id@ })
    } else if trial.resolved_path@ != root || trial.repository_root@ != root {
        Some(RootTrouble::Escaped { id: trial.id@ })
    } else {
        None
    }
}

/// The first thing that is wrong with one of the ways to name a root.
pub open spec fn first_trouble(list: Seq<RootTrial>, root: Seq<char>) -> Option<RootTrouble>
    decreases list.len(),
{
    if list.len() == 0 {
        None
    } else {
        match first_trouble(list.drop_last(), root) {
            Some(trouble) => Some(trouble),
            None => trial_trouble(list.last(), root),
        }
    }
}

/// What is wrong with the ways to name a root.
pub open spec fn root_trouble(list: Seq<RootTrial>, root: Seq<char>) -> Option<RootTrouble> {
    if list.len() == 0 {
        Some(RootTrouble::NoInput)
    } else if first_trouble(list, root) is Some {
        first_trouble(list, root)
    } else if exists|i: int|
        0 <= i < list.len() && (#[trigger] list[i]).directory_opened_as_file {
        Some(RootTrouble::OpenedAsFile)
    } else if exists|i: int|
        0 <= i < list.len() && (#[trigger] list[i]).worktree_id@ != list[0].worktree_id@ {
        Some(RootTrouble::SeveralWorktrees)
    } else {
        None
    }
}

/// Insists that all ways to name a root lead to the one repository.
pub fn check_roots(list: &Vec<RootTrial>, root: &str) -> (fault: Option<RootFault>)
    ensures
        match fault {
            Some(fault) => root_trouble(list@, root@) == Some(fault@),
            None => root_trouble(list@, root@) is None,
        },
{
    if list.len() == 0 {
        return Some(RootFault::NoInput);
    }
    let mut opened = false;
    let mut several = false;
    let mut i: usize = 0;
    assert(list@.take(0) =~= Seq::<RootTrial>::empty());
    while i < list.len()
        invariant
            i <= list@.len(),
            list@.len() > 0,
            first_trouble(list@.take(i as int), root@) is None,
            opened == exists|k: int|
                0 <= k < i && (#[trigger] list@[k]).directory_opened_as_file,
            several == exists|k: int|
                0 <= k < i && (#[trigger] list@[k]).worktree_id@ != list@[0].worktree_id@,
        decreases list@.len() - i,
    {
        let trial = &list[i];
        proof {
            assert(list@.take(i + 1).drop_last() =~= list@.take(i as int));
            if trial_trouble(*trial, root@) is Some {
                lemma_first_trouble(list@, root@, i + 1);
            }
        }
        if trial.path_count != 1 {
            return Some(
                RootFault::PathCount { id: trial.id.clone(), count: trial.path_count },
            );
        }
        if trial.error_count > 0 {
            return Some(RootFault::NotOpened { id: trial.id.clone() });
        }
        if !trial.has_repository {
            return Some(RootFault::NoRepository { id: trial.id.clone() });
        }
        if !same_text(trial.resolved_path.as_str(), root) || !same_text(
            trial.repository_root.as_str(),
            root,
        ) {
            return Some(RootFault::Escaped { id: trial.id.clone() });
        }
        if trial.directory_opened_as_file {
            opened = true;
        }
        if !same_text(trial.worktree_id.as_str(), list[0].worktree_id.as_str()) {
            several = true;
        }
        i += 1;
    }
    assert(list@.take(i as int) =~= list@);
    if opened {
        return Some(RootFault::OpenedAsFile);
    }
    if several {
        return Some(RootFault::SeveralWorktrees);
    }
    None
}

proof fn lemma_first_trouble(list: Seq<RootTrial>, root: Seq<char>, count: int)
    requires
        0 <= count <= list.len(),
        first_trouble(list.take(count), root) is Some,
    ensures
        first_trouble(list, root) == first_trouble(list.take(count), root),
    decreases list.len(),
{
    if count == list.len() {
        assert(list.take(count) =~= list);
    } else {
        assert(list.drop_last().take(count) =~= list.take(count));
        lemma_first_trouble(list.drop_last(), root, count);
    }
}

/// The roots that the ways to name one lead to.
pub open spec fn repository_roots(list: Seq<RootTrial>) -> Seq<Seq<char>> {
    Seq::new(list.len(), |i: int| list[i].repository_root@)
}

/// The worktrees that the ways to name a root lead to.
pub open spec fn worktree_ids(list: Seq<RootTrial>) -> Seq<Seq<char>> {
    Seq::new(list.len(), |i: int| list[i].worktree_id@)
}

fn count_distinct(list: &Vec<String>) -> (count: usize)
    ensures
        count == texts(list@).to_set().len(),
        count <= list@.len(),
{
    let ghost all = texts(list@);
    let mut count: usize = 0;
    let mut i: usize = 0;
    assert(all.take(0).to_set() =~= Set::<Seq<char>>::empty());
    while i < list.len()
        invariant
            all == texts(list@),
            count <= i <= list@.len(),
            count == all.take(i as int).to_set().len(),
        decreases list@.len() - i,
    {
        let mut known = false;
        let mut k: usize = 0;
        while k < i
            invariant
                all == texts(list@),
                k <= i < list@.len(),
                known == all.take(k as int).contains(all[i as int]),
            decreases i - k,
        {
            proof {
                let before = all.take(k as int);
                let after = all.take(k + 1);
                assert(after =~= before.push(all[k as int]));
                assert(after[k as int] == all[k as int]);
                if before.contains(all[i as int]) {
                    let at = choose|j: int| 0 <= j < before.len() && before[j] == all[i as int];
                    assert(after[at] == all[i as int]);
                }
            }
            if same_text(list[k].as_str(), list[i].as_str()) {
                known = true;
            }
            k += 1;
        }
        proof {
            vstd::seq_lib::seq_to_set_is_finite(all.take(i as int));
            lemma_set_push(all.take(i as int), all[i as int]);
            assert(all.take(i + 1) =~= all.take(i as int).push(all[i as int]));
        }
        if !known {
            count += 1;
        }
        i += 1;
    }
    assert(all.take(i as int) =~= all);
    count
}

proof fn lemma_set_push(list: Seq<Seq<char>>, s: Seq<char>)
    ensures
        list.push(s).to_set() == list.to_set().insert(s),
        list.to_set().contains(s) == list.contains(s),
{
    assert forall|x: Seq<char>| list.push(s).to_set().contains(x) == list.to_set().insert(
        s,
    ).contains(x) by {
        if list.contains(x) {
            let at = choose|j: int| 0 <= j < list.len() && list[j] == x;
            assert(list.push(s)[at] == x);
        }
        if x == s {
            assert(list.push(s)[list.len() as int] == x);
        }
    }
    assert(list.push(s).to_set() =~= list.to_set().insert(s));
}

/// Counts the roots and the worktrees that the ways to name a root lead to,
/// where as many worktrees lie beneath it, and none that nobody told of.
pub fn count_roots(list: &Vec<RootTrial>, beneath: usize) -> (counts: Option<(usize, usize)>)
    ensures
        match counts {
            Some((roots, worktrees)) => {
                &&& roots == repository_roots(list@).to_set().len()
                &&& worktrees == worktree_ids(list@).to_set().len()
                &&& beneath == worktrees
            },
            None => beneath != worktree_ids(list@).to_set().len(),
        },
{
    let mut roots: Vec<String> = Vec::new();
    let mut worktrees: Vec<String> = Vec::new();
    let mut i: usize = 0;
    while i < list.len()
        invariant
            i <= list@.len(),
            texts(roots@) == repository_roots(list@).take(i as int),
            texts(worktrees@) == worktree_ids(list@).take(i as int),
            roots@.len() == i,
            worktrees@.len() == i,
        decreases list@.len() - i,
    {
        let ghost before = (texts(roots@), texts(worktrees@));
        roots.push(list[i].repository_root.clone());
        worktrees.push(list[i].worktree_id.clone());
        i += 1;
        assert(texts(roots@) =~= before.0.push(list@[i - 1].repository_root@));
        assert(texts(worktrees@) =~= before.1.push(list@[i - 1].worktree_id@));
        assert(texts(roots@) =~= repository_roots(list@).take(i as int));
        assert(texts(worktrees@) =~= worktree_ids(list@).take(i as int));
    }
    assert(texts(roots@) =~= repository_roots(list@));
    assert(texts(worktrees@) =~= worktree_ids(list@));
    let count: usize = count_distinct(&worktrees);
    if beneath != count {
        return None;
    }
    Some((count_distinct(&roots), count))
}

/// Where nothing is wrong with the ways to name a root, they lead to one
/// repository and one worktree.
pub proof fn sound_roots_are_one(list: Seq<RootTrial>, root: Seq<char>)
    requires
        root_trouble(list, root) is None,
    ensures
        repository_roots(list).to_set().len() == 1,
        worktree_ids(list).to_set().len() == 1,
{
    assert forall|i: int| 0 <= i < list.len() implies (#[trigger] list[i]).repository_root@
        == root by {
        lemma_no_trouble(list, root, i);
    }
    let roots = repository_roots(list);
    let ids = worktree_ids(list);
    let id = list[0].worktree_id@;
    assert(roots[0] == root);
    assert(ids[0] == id);
    assert(roots.to_set() =~= Set::empty().insert(root));
    assert forall|x: Seq<char>| ids.to_set().contains(x) implies x == id by {
        let i = choose|i: int| 0 <= i < ids.len() && ids[i] == x;
        assert(list[i].worktree_id@ == x);
    }
    assert(ids.to_set() =~= Set::empty().insert(id));
}

proof fn lemma_no_trouble(list: Seq<RootTrial>, root: Seq<char>, i: int)
    requires
        first_trouble(list, root) is None,
        0 <= i < list.len(),
    ensures
        trial_trouble(list[i], root) is None,
    decreases list.len(),
{
    if i < list.len() - 1 {
        lemma_no_trouble(list.drop_last(), root, i);
    }
}

/// The tab of a document: the one that shows its buffer, or a new one at the
/// end.
pub fn tab_of_buffer(buffers: &Vec<u64>, buffer: u64) -> (result: (usize, bool))
    ensures
        ({
            let (index, is_new) = result;
            if buffers@.contains(buffer) {
                !is_new && index < buffers@.len() && buffers@[index as int] == buffer
                    && forall|k: int| 0 <= k < index ==> buffers@[k] != buffer
            } else {
                is_new && index == buffers@.len()
            }
        }),
{
    let mut i: usize = 0;
    while i < buffers.len()
        invariant
            i <= buffers@.len(),
            forall|k: int| 0 <= k < i ==> buffers@[k] != buffer,
        decreases buffers@.len() - i,
    {
        if buffers[i] == buffer {
            return (i, false);
        }
        i += 1;
    }
    (i, true)
}

/// An access to the file system.
#[derive(Debug)]
pub struct FsAccess {
    pub reads_directory: bool,
    pub path: String,
}

/// How many directories were read: the one that holds the file, and others.
pub open spec fn directory_reads(list: Seq<FsAccess>, parent: Option<Seq<char>>) -> (nat, nat)
    decreases list.len(),
{
    if list.len() == 0 {
        (0, 0)
    } else {
        let (own, others) = directory_reads(list.drop_last(), parent);
        if !list.last().reads_directory {
            (own, others)
        } else if parent == Some(list.last().path@) {
            (own + 1, others)
        } else {
            (own, others + 1)
        }
    }
}

/// Counts the directories that were read: the one that holds the file, and
/// others.
pub fn count_directory_reads(list: &Vec<FsAccess>, parent: &Option<String>) -> (counts: (
    usize,
    usize,
))
    ensures
        counts.0 == directory_reads(list@, optional_text(*parent)).0,
        counts.1 == directory_reads(list@, optional_text(*parent)).1,
{
    let mut own: usize = 0;
    let mut others: usize = 0;
    let mut i: usize = 0;
    assert(list@.take(0) =~= Seq::<FsAccess>::empty());
    while i < list.len()
        invariant
            i <= list@.len(),
            own <= i,
            others <= i,
            own == directory_reads(list@.take(i as int), optional_text(*parent)).0,
            others == directory_reads(list@.take(i as int), optional_text(*parent)).1,
        decreases list@.len() - i,
    {
        let access = &list[i];
        assert(list@.take(i + 1).drop_last() =~= list@.take(i as int));
        if access.reads_directory {
            let inside = match parent {
                Some(parent) => same_text(access.path.as_str(), parent.as_str()),
                None => false,
            };
            if inside {
                own += 1;
            } else {
                others += 1;
            }
        }
        i += 1;
    }
    assert(list@.take(i as int) =~= list@);
    (own, others)
}

/// The order in which two overlapping searches were shown.
pub fn publish_log(later_shown: bool, earlier_shown: bool) -> (log: Vec<&'static str>)
    ensures
        log@.len() == (if later_shown {
            1int
        } else {
            0
        }) + (if earlier_shown {
            1int
        } else {
            0
        }),
        later_shown ==> log@[0]@ == "B"@,
        earlier_shown ==> log@.last()@ == "A"@,
{
    let mut log: Vec<&'static str> = Vec::new();
    if later_shown {
        log.push("B");
    }
    if earlier_shown {
        log.push("A");
    }
    log
}

/// Whether the failure of a search is shown.
pub fn shows_failure(status: &str) -> (shown: bool)
    ensures
        shown == holds(status@, "search failed: EIO"@),
{
    holds_text(status, "search failed: EIO")
}

/// Files that no search of a repository finds, by their paths.
pub fn excluded_queries(outside: &str) -> (queries: Vec<String>)
    ensures
        texts(queries@) == seq![
            ".git/repository-e2e-excluded.txt"@,
            "ignored/excluded.txt"@,
            "target/excluded.txt"@,
            outside@,
        ],
{
    let mut queries: Vec<String> = Vec::new();
    queries.push(".git/repository-e2e-excluded.txt".to_string());
    queries.push("ignored/excluded.txt".to_string());
    queries.push("target/excluded.txt".to_string());
    queries.push(outside.to_string());
    assert(texts(queries@) =~= seq![
        ".git/repository-e2e-excluded.txt"@,
        "ignored/excluded.txt"@,
        "target/excluded.txt"@,
        outside@,
    ]);
    queries
}

/// Where nothing changed, nothing is reported as changed.
pub proof fn unchanged_sources_are_not_reported(list: Seq<SourceText>, count: int)
    requires
        0 <= count <= list.len(),
        forall|i: int, j: int|
            0 <= i < j < list.len() ==> (#[trigger] list[i]).path@ != (#[trigger] list[j]).path@,
    ensures
        changed(list, list.take(count)).len() == 0,
    decreases count,
{
    if count > 0 {
        unchanged_sources_are_not_reported(list, count - 1);
        assert(list.take(count).drop_last() =~= list.take(count - 1));
        lemma_text_at(list, count - 1);
    }
}

proof fn lemma_text_at(list: Seq<SourceText>, index: int)
    requires
        0 <= index < list.len(),
        forall|i: int, j: int|
            0 <= i < j < list.len() ==> (#[trigger] list[i]).path@ != (#[trigger] list[j]).path@,
    ensures
        text_at(list, list[index].path@) == Some(list[index].text@),
    decreases list.len(),
{
    if index < list.len() - 1 {
        assert(list.drop_last()[index] == list[index]);
        lemma_text_at(list.drop_last(), index);
    }
}

/// Ways to name one file of a repository.
pub open spec fn aliases(root: Seq<char>) -> Seq<Seq<char>> {
    seq![
        "src/日本 語.rs"@,
        "./src/日本 語.rs"@,
        "src/../src/日本 語.rs"@,
        "aliases/日本 語.rs"@,
        joined(root, "src/日本 語.rs"@),
    ]
}

/// Ways to name one file of a repository.
pub fn alias_paths(root: &str) -> (paths: Vec<String>)
    ensures
        texts(paths@) == aliases(root@),
{
    let mut paths: Vec<String> = Vec::new();
    paths.push("src/日本 語.rs".to_string());
    paths.push("./src/日本 語.rs".to_string());
    paths.push("src/../src/日本 語.rs".to_string());
    paths.push("aliases/日本 語.rs".to_string());
    paths.push(join(root, "src/日本 語.rs"));
    assert(texts(paths@) =~= aliases(root@));
    paths
}

/// What came of opening one file outside of all repositories.
#[derive(Debug)]
pub struct OutsideTrial {
    /// The path of the file.
    pub path: String,
    /// The path of the file in its worktree.
    pub relative_path: String,
    pub worktree_root: String,
    pub is_single_file: bool,
    pub opened_path: String,
    /// What was opened is what is in the file.
    pub same_bytes: bool,
    pub accesses: Vec<FsAccess>,
    /// What was done to the file.
    pub operations: Vec<String>,
}

/// What is wrong with opening a file outside of all repositories.
#[derive(Clone, Copy, Debug, PartialEq, Eq, Structural)]
pub enum OutsideFault {
    Nested,
    OtherRoot,
    NotSingleFile,
    OtherPath,
    OtherBytes,
    NoTrace,
    /// A directory was read.
    DirectoryRead,
    /// The file was not seen to be opened and looked at.
    NotObserved,
}

/// What is wrong with opening a file outside of all repositories, the first
/// thing first.
pub open spec fn outside_trouble(trial: OutsideTrial) -> Option<OutsideFault> {
    let (own, others) = directory_reads(trial.accesses@, None);
    if trial.relative_path@.len() > 0 {
        Some(OutsideFault::Nested)
    } else if trial.worktree_root@ != trial.path@ {
        Some(OutsideFault::OtherRoot)
    } else if !trial.is_single_file {
        Some(OutsideFault::NotSingleFile)
    } else if trial.opened_path@ != trial.path@ {
        Some(OutsideFault::OtherPath)
    } else if !trial.same_bytes {
        Some(OutsideFault::OtherBytes)
    } else if trial.accesses@.len() == 0 {
        Some(OutsideFault::NoTrace)
    } else if own + others > 0 {
        Some(OutsideFault::DirectoryRead)
    } else if !texts(trial.operations@).contains("open-self"@) || !texts(
        trial.operations@,
    ).contains("stat-self"@) {
        Some(OutsideFault::NotObserved)
    } else {
        None
    }
}

fn lists_text(list: &Vec<String>, text: &str) -> (result: bool)
    ensures
        result == texts(list@).contains(text@),
{
    let mut i: usize = 0;
    while i < list.len()
        invariant
            i <= list@.len(),
            forall|k: int| 0 <= k < i ==> #[trigger] texts(list@)[k] != text@,
        decreases list@.len() - i,
    {
        assert(texts(list@)[i as int] == list@[i as int]@);
        if same_text(list[i].as_str(), text) {
            return true;
        }
        i += 1;
    }
    false
}

/// Insists that a file outside of all repositories is opened alone.
pub fn check_outside(trial: &OutsideTrial) -> (fault: Option<OutsideFault>)
    ensures
        fault == outside_trouble(*trial),
{
    let (own, others) = count_directory_reads(&trial.accesses, &None);
    if trial.relative_path.as_str().unicode_len() > 0 {
        Some(OutsideFault::Nested)
    } else if !same_text(trial.worktree_root.as_str(), trial.path.as_str()) {
        Some(OutsideFault::OtherRoot)
    } else if !trial.is_single_file {
        Some(OutsideFault::NotSingleFile)
    } else if !same_text(trial.opened_path.as_str(), trial.path.as_str()) {
        Some(OutsideFault::OtherPath)
    } else if !trial.same_bytes {
        Some(OutsideFault::OtherBytes)
    } else if trial.accesses.len() == 0 {
        Some(OutsideFault::NoTrace)
    } else if own > 0 || others > 0 {
        Some(OutsideFault::DirectoryRead)
    } else if !lists_text(&trial.operations, "open-self") || !lists_text(
        &trial.operations,
        "stat-self",
    ) {
        Some(OutsideFault::NotObserved)
    } else {
        None
    }
}

/// What can be seen of a document from outside.
#[derive(Debug, PartialEq, Eq)]
pub struct DocumentTrace {
    pub tab_count: usize,
    pub body_sha256: String,
    pub dirty: bool,
}

/// What can be seen of a document from outside.
pub fn document_trace(tab_count: usize, body: &str, dirty: bool) -> (trace: DocumentTrace)
    ensures
        trace.tab_count == tab_count,
        trace.body_sha256@ == hex_text(sha256_of(vstd::utf8::encode_utf8(body@))),
        trace.dirty == dirty,
{
    let digest = ContentFingerprint::for_bytes(body.as_bytes()).sha256;
    DocumentTrace { tab_count, body_sha256: hex_string(digest.as_slice()), dirty }
}

/// Whether nothing is seen to have changed.
pub fn same_trace(a: &DocumentTrace, b: &DocumentTrace) -> (same: bool)
    ensures
        same == (a.tab_count == b.tab_count && a.body_sha256@ == b.body_sha256@ && a.dirty
            == b.dirty),
{
    a.tab_count == b.tab_count && same_text(a.body_sha256.as_str(), b.body_sha256.as_str())
        && a.dirty == b.dirty
}

} // verus!
