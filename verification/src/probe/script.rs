//! The scripts of the probes. A probe has the editor do one thing after
//! another, looks at what came of each, and goes on, looks again a little
//! later, or stops. Only the doing itself is left to the editor.

use vstd::prelude::*;
use vstd::string::*;

use crate::probe::{
    analyzer_runs, awaited, behind_marker, changed, changed_paths, is_analyzer_ready,
    is_closed_in_time, is_failed_save_harmless, is_history_intact, is_saved, marker_position,
    answer_time, ready_time, ready_timeout, request_timeout, same_settings, ActionEvent,
    ConfigurationEvent, EffectiveLanguageSettings, LocationRequestKind, RequestEnd, ServerStatus,
    SettingsView, SourceText,
};
use crate::text::{holds, holds_text, same_text, texts};

verus! {

broadcast use vstd::string::group_string_axioms;

/// Settings that a probe waits for.
#[derive(Clone, Copy, Debug, PartialEq, Eq, Structural)]
pub enum Expected {
    Initial,
    Updated,
    Recovered,
    /// Those under which a file is formatted when it is saved.
    Formatting,
}

impl Expected {
    pub open spec fn values(self) -> SettingsView {
        match self {
            Expected::Initial => SettingsView {
                tab_size: 5,
                format_on_save: "off"@,
                completion_lsp: true,
                show_completions_on_input: true,
            },
            Expected::Updated => SettingsView {
                tab_size: 7,
                format_on_save: "on"@,
                completion_lsp: false,
                show_completions_on_input: false,
            },
            Expected::Recovered => SettingsView {
                tab_size: 9,
                format_on_save: "off"@,
                completion_lsp: true,
                show_completions_on_input: true,
            },
            Expected::Formatting => SettingsView {
                tab_size: 4,
                format_on_save: "on"@,
                completion_lsp: true,
                show_completions_on_input: true,
            },
        }
    }

    /// The settings themselves.
    pub fn settings(self) -> (settings: EffectiveLanguageSettings)
        ensures
            settings@ == self.values(),
    {
        let (tab_size, format_on_save, lsp): (u32, &str, bool) = match self {
            Expected::Initial => (5, "off", true),
            Expected::Updated => (7, "on", false),
            Expected::Recovered => (9, "off", true),
            Expected::Formatting => (4, "on", true),
        };
        EffectiveLanguageSettings {
            tab_size,
            format_on_save: format_on_save.to_string(),
            completion_lsp: lsp,
            show_completions_on_input: lsp,
        }
    }
}

/// A file of the configuration.
#[derive(Clone, Copy, Debug, PartialEq, Eq, Structural)]
pub enum ConfigurationFile {
    Keymap,
    ProjectSettings,
}

impl ConfigurationFile {
    pub open spec fn word(self) -> Seq<char> {
        match self {
            ConfigurationFile::Keymap => "user keymap"@,
            ConfigurationFile::ProjectSettings => "project settings"@,
        }
    }

    /// What the file is called in events.
    pub fn name(self) -> (name: &'static str)
        ensures
            name@ == self.word(),
    {
        match self {
            ConfigurationFile::Keymap => "user keymap",
            ConfigurationFile::ProjectSettings => "project settings",
        }
    }
}

/// Keys that a probe presses.
#[derive(Clone, Copy, Debug, PartialEq, Eq, Structural)]
pub enum Keys {
    /// Two keys that open the command palette.
    Palette,
    F1,
    F3,
}

impl Keys {
    /// The keystrokes, one after another.
    pub fn strokes(self) -> (strokes: Vec<&'static str>)
        ensures
            strokes@.len() == if self is Palette {
                2int
            } else {
                1
            },
            self is Palette ==> strokes@[0]@ == "ctrl-k"@ && strokes@[1]@ == "ctrl-p"@,
            self is F1 ==> strokes@[0]@ == "f1"@,
            self is F3 ==> strokes@[0]@ == "f3"@,
    {
        let mut strokes: Vec<&'static str> = Vec::new();
        match self {
            Keys::Palette => {
                strokes.push("ctrl-k");
                strokes.push("ctrl-p");
            },
            Keys::F1 => {
                strokes.push("f1");
            },
            Keys::F3 => {
                strokes.push("f3");
            },
        }
        strokes
    }
}

/// An action that a probe waits for.
#[derive(Clone, Copy, Debug, PartialEq, Eq, Structural)]
pub enum Wanted {
    CommandPalette,
    Hover,
}

impl Wanted {
    pub open spec fn word(self) -> Seq<char> {
        match self {
            Wanted::CommandPalette => "CommandPalette"@,
            Wanted::Hover => "Hover"@,
        }
    }

    /// The name of the action.
    pub fn name(self) -> (name: &'static str)
        ensures
            name@ == self.word(),
    {
        match self {
            Wanted::CommandPalette => "CommandPalette",
            Wanted::Hover => "Hover",
        }
    }
}

/// A keymap that a probe writes.
#[derive(Clone, Copy, Debug, PartialEq, Eq, Structural)]
pub enum KeymapText {
    Broken,
    Replacement,
}

impl KeymapText {
    pub open spec fn words(self) -> Seq<char> {
        match self {
            KeymapText::Broken => "{"@,
            KeymapText::Replacement =>
                "[\n          {\n            \"context\": \"Editor\",\n            \"bindings\": {\n              \"f1\": null,\n              \"f3\": \"editor::Hover\"\n            }\n          }\n        ]"@,
        }
    }

    /// The content of the file.
    pub fn text(self) -> (text: &'static str)
        ensures
            text@ == self.words(),
    {
        match self {
            KeymapText::Broken => "{",
            KeymapText::Replacement =>
                "[\n          {\n            \"context\": \"Editor\",\n            \"bindings\": {\n              \"f1\": null,\n              \"f3\": \"editor::Hover\"\n            }\n          }\n        ]",
        }
    }
}

/// Project settings that a probe writes.
#[derive(Clone, Copy, Debug, PartialEq, Eq, Structural)]
pub enum SettingsText {
    Updated,
    Broken,
    Recovered,
    FormatterOff,
}

impl SettingsText {
    pub open spec fn words(self) -> Seq<char> {
        match self {
            SettingsText::Updated =>
                "{\n          \"tab_size\": 6,\n          \"format_on_save\": \"off\",\n          \"completions\": { \"lsp\": true },\n          \"show_completions_on_input\": true,\n          \"languages\": {\n            \"Rust\": {\n              \"tab_size\": 7,\n              \"format_on_save\": \"on\",\n              \"completions\": { \"lsp\": false },\n              \"show_completions_on_input\": false\n            }\n          }\n        }"@,
            SettingsText::Broken => "{"@,
            SettingsText::Recovered =>
                "{\n          \"tab_size\": 8,\n          \"languages\": {\n            \"Rust\": {\n              \"tab_size\": 9,\n              \"format_on_save\": \"off\",\n              \"completions\": { \"lsp\": true },\n              \"show_completions_on_input\": true\n            }\n          }\n        }"@,
            SettingsText::FormatterOff =>
                "{\n              \"format_on_save\": \"off\",\n              \"remove_trailing_whitespace_on_save\": false,\n              \"ensure_final_newline_on_save\": false\n            }"@,
        }
    }

    /// The content of the file.
    pub fn text(self) -> (text: &'static str)
        ensures
            text@ == self.words(),
    {
        match self {
            SettingsText::Updated =>
                "{\n          \"tab_size\": 6,\n          \"format_on_save\": \"off\",\n          \"completions\": { \"lsp\": true },\n          \"show_completions_on_input\": true,\n          \"languages\": {\n            \"Rust\": {\n              \"tab_size\": 7,\n              \"format_on_save\": \"on\",\n              \"completions\": { \"lsp\": false },\n              \"show_completions_on_input\": false\n            }\n          }\n        }",
            SettingsText::Broken => "{",
            SettingsText::Recovered =>
                "{\n          \"tab_size\": 8,\n          \"languages\": {\n            \"Rust\": {\n              \"tab_size\": 9,\n              \"format_on_save\": \"off\",\n              \"completions\": { \"lsp\": true },\n              \"show_completions_on_input\": true\n            }\n          }\n        }",
            SettingsText::FormatterOff =>
                "{\n              \"format_on_save\": \"off\",\n              \"remove_trailing_whitespace_on_save\": false,\n              \"ensure_final_newline_on_save\": false\n            }",
        }
    }
}

/// A text that a probe types over a document.
#[derive(Clone, Copy, Debug, PartialEq, Eq, Structural)]
pub enum Typing {
    First,
    Second,
}

impl Typing {
    pub open spec fn words(self) -> Seq<char> {
        match self {
            Typing::First => "fn main() { let value = 1; }   \n"@,
            Typing::Second => "fn main() { let value = 2; }   \n"@,
        }
    }

    /// The text.
    pub fn text(self) -> (text: &'static str)
        ensures
            text@ == self.words(),
    {
        match self {
            Typing::First => "fn main() { let value = 1; }   \n",
            Typing::Second => "fn main() { let value = 2; }   \n",
        }
    }
}

/// Something that the editor is asked for, and answers later.
#[derive(Clone, Copy, Debug, PartialEq, Eq, Structural)]
pub enum Request {
    Completions,
    Hover,
    Locations(LocationRequestKind),
    Rename,
    CodeActions,
}

impl Request {
    pub open spec fn number(self) -> u64 {
        match self {
            Request::Completions => 0,
            Request::Hover => 1,
            Request::Locations(LocationRequestKind::Definition) => 10,
            Request::Locations(LocationRequestKind::TypeDefinition) => 11,
            Request::Locations(LocationRequestKind::References) => 12,
            Request::Locations(LocationRequestKind::ProjectSymbols) => 20,
            Request::Rename => 30,
            Request::CodeActions => 31,
        }
    }

    /// The generation under which the request is made. That of completions is
    /// the editor's own.
    pub fn generation(self) -> (generation: u64)
        ensures
            generation == self.number(),
    {
        match self {
            Request::Completions => 0,
            Request::Hover => 1,
            Request::Locations(kind) => match kind {
                LocationRequestKind::Definition => 10,
                LocationRequestKind::TypeDefinition => 11,
                LocationRequestKind::References => 12,
                LocationRequestKind::ProjectSymbols => 20,
            },
            Request::Rename => 30,
            Request::CodeActions => 31,
        }
    }
}

/// Something that a probe has the editor do, or looks at.
#[derive(Clone, Copy, Debug, PartialEq, Eq, Structural)]
pub enum Task {
    /// Opens a document, whatever is in it.
    OpenDocument,
    /// Opens a document that is as it is on disk.
    OpenFixture,
    /// Opens a document with the marker in it.
    OpenMarked,
    AwaitServer { patience: u64, pause: u64, lenient: bool },
    /// Asks for completions until the server answers for the document.
    Register,
    /// Edits the document, and undoes and redoes it.
    EditAndBack,
    AwaitSettings(Expected),
    /// Looks once at the settings, which are still these.
    KeepSettings(Expected),
    AwaitFormatterOff,
    /// Saves, which must fail.
    FailToSave,
    /// Looks at the disk after a save that failed.
    ReadAfterFailure,
    Save,
    /// Looks at the disk after a save.
    ReadEdited,
    ReadFormatted,
    ReadDisk,
    Restart,
    /// Asks for completions until the server has recovered.
    Recover,
    /// Asks for completions, whatever comes of it.
    AskForCompletions { timeout: u64 },
    /// Asks for completions, which the server must give, however long it takes.
    CollectCompletions,
    ReadDiagnostics,
    AwaitManyDiagnostics,
    AwaitDiagnostics,
    CollectDiagnostics,
    CloseEditor,
    AwaitConfiguration { file: ConfigurationFile, success: bool },
    Press(Keys),
    AwaitAction(Wanted),
    /// No action follows.
    StayQuiet,
    WriteKeymap(KeymapText),
    WriteSettings(SettingsText),
    Type(Typing),
    ReadHover,
    ReadServers,
    /// Moves the caret behind the marker.
    MoveCaret,
    Start(Request),
    AwaitAnswer(Request),
    AwaitMenu,
    ConfirmCompletion,
    UndoCompletion,
    /// Lists the diagnostics, of which there are some.
    ListDiagnostics,
    GoToDiagnostic,
    GoToDefinition,
    /// Opens the references in one document.
    OpenReferences,
    /// Types a mark into the references.
    InsertMark,
    UndoMark,
    /// Previews a rename and drops the preview.
    RejectRename,
    PreviewRename,
    /// Asks for the rename once more before it is made.
    ConfirmRename,
    PerformRename,
    UndoRename,
    ApplyCodeAction,
    FormatDocument,
    FormatSelection,
    CloseTabs,
    Rest,
}

/// The first look decides.
pub open spec fn at_once() -> Pace {
    Pace { patience: 0, pause: 0, delay: 0, own_time: true, lenient: false }
}

/// Looks again and again for a while.
pub open spec fn within(patience: u64, pause: u64) -> Pace {
    Pace { patience, pause, delay: 0, own_time: true, lenient: false }
}

/// The pace of a task.
pub open spec fn pace_of(task: Task) -> Pace {
    match task {
        Task::AwaitServer { patience, pause, lenient } => Pace {
            lenient,
            ..within(patience, pause)
        },
        Task::Register => within(10_000, 25),
        Task::AwaitSettings(_) | Task::AwaitFormatterOff | Task::AwaitConfiguration { .. } => within(
            5_000,
            10,
        ),
        Task::Restart => Pace { delay: 100, ..at_once() },
        Task::Recover => within(15_000, 100),
        Task::AwaitManyDiagnostics => Pace { lenient: true, ..within(5_000, 10) },
        Task::AwaitDiagnostics => within(5_000, 25),
        Task::AwaitAction(_) => within(2_000, 5),
        Task::StayQuiet => Pace { lenient: true, ..within(75, 5) },
        Task::AwaitAnswer(_) => within(5_000, 10),
        Task::AwaitMenu => Pace { own_time: false, ..within(0, 10) },
        Task::Rest => Pace { delay: 25, ..at_once() },
        _ => at_once(),
    }
}

/// The time that one request of a task has, in milliseconds, before it is
/// given up; another one may follow it.
pub open spec fn limit_of(task: Task) -> Option<u64> {
    match task {
        Task::Register => Some(1_000),
        Task::Recover => Some(2_000),
        Task::AskForCompletions { timeout } => Some(timeout),
        _ => None,
    }
}

/// The time that one request of a task has.
pub fn request_limit(task: Task) -> (limit: Option<u64>)
    ensures
        limit == limit_of(task),
{
    match task {
        Task::Register => Some(1_000),
        Task::Recover => Some(2_000),
        Task::AskForCompletions { timeout } => Some(timeout),
        _ => None,
    }
}

fn steady(patience: u64, pause: u64) -> (pace: Pace)
    ensures
        pace == within(patience, pause),
{
    Pace { patience, pause, delay: 0, own_time: true, lenient: false }
}

/// The pace of a task.
pub fn pace(task: Task) -> (pace: Pace)
    ensures
        pace == pace_of(task),
{
    match task {
        Task::AwaitServer { patience, pause, lenient } => Pace {
            patience,
            pause,
            delay: 0,
            own_time: true,
            lenient,
        },
        Task::Register => steady(10_000, 25),
        Task::AwaitSettings(_) | Task::AwaitFormatterOff | Task::AwaitConfiguration { .. } => steady(
            5_000,
            10,
        ),
        Task::Restart => Pace { patience: 0, pause: 0, delay: 100, own_time: true, lenient: false },
        Task::Recover => steady(15_000, 100),
        Task::AwaitManyDiagnostics => Pace {
            patience: 5_000,
            pause: 10,
            delay: 0,
            own_time: true,
            lenient: true,
        },
        Task::AwaitDiagnostics => steady(5_000, 25),
        Task::AwaitAction(_) => steady(2_000, 5),
        Task::StayQuiet => Pace { patience: 75, pause: 5, delay: 0, own_time: true, lenient: true },
        Task::AwaitAnswer(_) => steady(5_000, 10),
        Task::AwaitMenu => Pace {
            patience: 0,
            pause: 10,
            delay: 0,
            own_time: false,
            lenient: false,
        },
        Task::Rest => Pace { patience: 0, pause: 0, delay: 25, own_time: true, lenient: false },
        _ => steady(0, 0),
    }
}

/// What a channel of answers gives.
#[derive(Clone, Copy, Debug, PartialEq, Eq, Structural)]
pub enum AnswerEvent {
    Finished { request: Request, buffer: u64, generation: u64, success: bool },
    /// Something else, or nothing yet.
    Other,
    Closed,
}

/// What came of a task.
#[derive(Debug)]
pub enum Evidence {
    /// It was done.
    Done,
    /// It could not be done.
    Failed(String),
    Opened { text: String, disk: String },
    Servers(Vec<ServerStatus>),
    Answered(RequestEnd),
    Edited {
        dirty: bool,
        original: String,
        edited: String,
        after_undo: String,
        after_redo: String,
    },
    Settings(EffectiveLanguageSettings),
    Disk { dirty: bool, disk: String, expected: String },
    Diagnostics { errors: usize, warnings: usize },
    Closed { elapsed_ms: u64 },
    Configuration(ConfigurationEvent),
    Action(ActionEvent),
    /// An answer, beside the buffer and the generation of the request.
    Answer { buffer: u64, generation: u64, event: AnswerEvent },
    Visible(bool),
    Items(usize),
    Text(String),
    Sources { before: Vec<SourceText>, after: Vec<SourceText> },
    /// An edit, and its undo: the text after each, and how many documents each
    /// changed.
    Undone { after: String, after_undo: String, changed: usize, undone: usize },
    /// The text of a preview that was dropped, and the sources around that.
    Rejected { preview: String, before: Vec<SourceText>, after: Vec<SourceText> },
    /// The sources after a rename, after its undo, and after its redo, and how
    /// many documents the last two changed.
    Renamed {
        after: Vec<SourceText>,
        after_undo: Vec<SourceText>,
        after_redo: Vec<SourceText>,
        undone: usize,
        redone: usize,
    },
    Signatures { previewed: String, confirmed: String },
    Counts { changed: usize, recorded: usize },
}

/// Decided by a condition.
pub open spec fn decided(condition: bool) -> Outcome {
    if condition {
        Outcome::Met
    } else {
        Outcome::Wrong
    }
}

/// Waits for a condition.
pub open spec fn waiting(condition: bool) -> Outcome {
    if condition {
        Outcome::Met
    } else {
        Outcome::Open
    }
}

/// Whether the server answers for the document.
pub open spec fn answers(end: RequestEnd) -> bool {
    match end {
        RequestEnd::Completed(list) => list@.len() == 2,
        _ => false,
    }
}

/// Whether sources are as they were.
pub open spec fn unchanged(before: Seq<SourceText>, after: Seq<SourceText>) -> bool {
    before.len() == after.len() && changed(before, after).len() == 0
}

/// What a look at an event of a request shows.
pub open spec fn answer_outcome(
    request: Request,
    buffer: u64,
    generation: u64,
    event: AnswerEvent,
) -> Outcome {
    match event {
        AnswerEvent::Finished { request: own, buffer: from, generation: of, success } => if own
            == request && (request is Completions || from == buffer) && of == (
        if request is Completions {
            generation
        } else {
            request.number()
        }) {
            decided(success)
        } else {
            Outcome::Open
        },
        AnswerEvent::Other => Outcome::Open,
        AnswerEvent::Closed => Outcome::Wrong,
    }
}

/// What a look at an action shows.
pub open spec fn action_outcome(wanted: Option<Wanted>, event: ActionEvent) -> Outcome {
    match event {
        ActionEvent::Action(name) => decided(wanted is Some && name@ == wanted->0.word()),
        ActionEvent::Other => Outcome::Open,
        ActionEvent::Closed => Outcome::Wrong,
    }
}

/// What a look at an event of the configuration shows.
pub open spec fn configuration_outcome(
    file: ConfigurationFile,
    success: bool,
    event: ConfigurationEvent,
) -> Outcome {
    match event {
        ConfigurationEvent::Closed => Outcome::Wrong,
        _ => waiting(awaited(event, file.word(), success) is Some),
    }
}

/// Whether nothing more is asked of a task than that it is done.
pub open spec fn is_plain_task(task: Task) -> bool {
    match task {
        Task::OpenDocument
        | Task::Save
        | Task::Restart
        | Task::Press(_)
        | Task::WriteKeymap(_)
        | Task::WriteSettings(_)
        | Task::Type(_)
        | Task::ReadHover
        | Task::ReadServers
        | Task::MoveCaret
        | Task::Start(_)
        | Task::GoToDiagnostic
        | Task::CloseTabs
        | Task::Rest => true,
        _ => false,
    }
}

/// What a look at a document that was opened shows.
pub open spec fn opened_outcome(task: Task, text: Seq<char>, disk: Seq<char>) -> Outcome {
    match task {
        Task::OpenFixture => decided(text == disk),
        Task::OpenMarked => decided(behind_marker(text) is Some),
        _ => Outcome::Wrong,
    }
}

/// What a look at the answer to a request for completions shows.
pub open spec fn completions_outcome(task: Task, end: RequestEnd) -> Outcome {
    match task {
        Task::Register | Task::Recover => waiting(answers(end)),
        Task::AskForCompletions { .. } => Outcome::Met,
        Task::CollectCompletions => decided(end is Completed),
        _ => Outcome::Wrong,
    }
}

/// What a look at the settings shows.
pub open spec fn settings_outcome(task: Task, own: SettingsView) -> Outcome {
    match task {
        Task::AwaitSettings(expected) => waiting(own == expected.values()),
        Task::KeepSettings(expected) => decided(own == expected.values()),
        Task::AwaitFormatterOff => waiting(own.format_on_save == "off"@),
        _ => Outcome::Wrong,
    }
}

/// What a look at a file on disk shows, beside what is expected there.
pub open spec fn disk_outcome(
    task: Task,
    dirty: bool,
    disk: Seq<char>,
    expected: Seq<char>,
) -> Outcome {
    match task {
        Task::ReadAfterFailure => decided(dirty && disk == expected),
        Task::ReadEdited => decided(!dirty && disk == expected),
        Task::ReadFormatted => decided(disk == "fn main() { let value = 1; }\n"@),
        Task::ReadDisk => Outcome::Met,
        _ => Outcome::Wrong,
    }
}

/// What a look at the number of diagnostics shows.
pub open spec fn diagnostics_outcome(task: Task, errors: int, warnings: int) -> Outcome {
    match task {
        Task::ReadDiagnostics => Outcome::Met,
        Task::AwaitManyDiagnostics => waiting(errors + warnings >= 10_000),
        Task::AwaitDiagnostics => waiting(errors > 0 || warnings > 0),
        _ => Outcome::Wrong,
    }
}

/// What a look at sources shows, beside what they were before.
pub open spec fn sources_outcome(
    task: Task,
    before: Seq<SourceText>,
    after: Seq<SourceText>,
) -> Outcome {
    match task {
        Task::InsertMark => decided(changed(before, after).len() == 1),
        Task::UndoMark => decided(unchanged(before, after)),
        _ => Outcome::Wrong,
    }
}

/// Whether a task makes an edit and takes it back.
pub open spec fn takes_back(task: Task) -> bool {
    match task {
        Task::UndoCompletion | Task::ApplyCodeAction | Task::FormatDocument
        | Task::FormatSelection => true,
        _ => false,
    }
}

/// Whether a task has to find something.
pub open spec fn finds(task: Task) -> bool {
    match task {
        Task::ConfirmCompletion | Task::ListDiagnostics | Task::GoToDefinition => true,
        _ => false,
    }
}

/// What a look at what came of a task shows. What does not belong to the task
/// is wrong.
pub open spec fn judged(task: Task, evidence: Evidence) -> Outcome {
    match evidence {
        Evidence::Done => decided(is_plain_task(task)),
        Evidence::Failed(_) => decided(task is FailToSave),
        Evidence::Opened { text, disk } => opened_outcome(task, text@, disk@),
        Evidence::Servers(list) => match task {
            Task::AwaitServer { .. } => waiting(analyzer_runs(list@)),
            _ => Outcome::Wrong,
        },
        Evidence::Answered(end) => completions_outcome(task, end),
        Evidence::Edited { dirty, original, edited, after_undo, after_redo } => decided(
            task is EditAndBack && dirty && after_undo@ == original@ && after_redo@ == edited@,
        ),
        Evidence::Settings(own) => settings_outcome(task, own@),
        Evidence::Disk { dirty, disk, expected } => disk_outcome(task, dirty, disk@, expected@),
        Evidence::Diagnostics { errors, warnings } => diagnostics_outcome(
            task,
            errors as int,
            warnings as int,
        ),
        Evidence::Closed { elapsed_ms } => decided(task is CloseEditor && elapsed_ms <= 250),
        Evidence::Configuration(event) => match task {
            Task::AwaitConfiguration { file, success } => configuration_outcome(
                file,
                success,
                event,
            ),
            _ => Outcome::Wrong,
        },
        Evidence::Action(event) => match task {
            Task::AwaitAction(wanted) => action_outcome(Some(wanted), event),
            Task::StayQuiet => action_outcome(None, event),
            _ => Outcome::Wrong,
        },
        Evidence::Answer { buffer, generation, event } => match task {
            Task::AwaitAnswer(request) => answer_outcome(request, buffer, generation, event),
            _ => Outcome::Wrong,
        },
        Evidence::Visible(visible) => match task {
            Task::AwaitMenu => waiting(visible),
            _ => Outcome::Wrong,
        },
        Evidence::Items(count) => decided(task is CollectDiagnostics || finds(task) && count > 0),
        Evidence::Text(text) => decided(
            task is PreviewRename || task is OpenReferences && holds(text@, "stub_"@),
        ),
        Evidence::Sources { before, after } => sources_outcome(task, before@, after@),
        Evidence::Undone { .. } => decided(takes_back(task)),
        Evidence::Rejected { before, after, .. } => decided(
            task is RejectRename && unchanged(before@, after@),
        ),
        Evidence::Renamed { .. } => decided(task is UndoRename),
        Evidence::Signatures { previewed, confirmed } => decided(
            task is ConfirmRename && previewed@ == confirmed@,
        ),
        Evidence::Counts { changed, recorded } => decided(
            task is PerformRename && changed == recorded,
        ),
    }
}

fn decide(condition: bool) -> (outcome: Outcome)
    ensures
        outcome == decided(condition),
{
    if condition {
        Outcome::Met
    } else {
        Outcome::Wrong
    }
}

fn wait_for(condition: bool) -> (outcome: Outcome)
    ensures
        outcome == waiting(condition),
{
    if condition {
        Outcome::Met
    } else {
        Outcome::Open
    }
}

fn judge_answer(request: Request, buffer: u64, generation: u64, event: AnswerEvent) -> (outcome:
    Outcome)
    ensures
        outcome == answer_outcome(request, buffer, generation, event),
{
    match event {
        AnswerEvent::Finished { request: own, buffer: from, generation: of, success } => {
            let completions = request == Request::Completions;
            let wanted: u64 = if completions {
                generation
            } else {
                request.generation()
            };
            if own == request && (completions || from == buffer) && of == wanted {
                decide(success)
            } else {
                Outcome::Open
            }
        },
        AnswerEvent::Other => Outcome::Open,
        AnswerEvent::Closed => Outcome::Wrong,
    }
}

fn judge_action(wanted: Option<Wanted>, event: &ActionEvent) -> (outcome: Outcome)
    ensures
        outcome == action_outcome(wanted, *event),
{
    match event {
        ActionEvent::Action(name) => match wanted {
            Some(wanted) => decide(same_text(name.as_str(), wanted.name())),
            None => Outcome::Wrong,
        },
        ActionEvent::Other => Outcome::Open,
        ActionEvent::Closed => Outcome::Wrong,
    }
}

fn judge_configuration(
    file: ConfigurationFile,
    success: bool,
    event: &ConfigurationEvent,
) -> (outcome: Outcome)
    ensures
        outcome == configuration_outcome(file, success, *event),
{
    match event {
        ConfigurationEvent::Reloaded { kind, result } => {
            let own = same_text(kind.as_str(), file.name());
            match result {
                Ok(_) => wait_for(own && success),
                Err(_) => wait_for(own && !success),
            }
        },
        ConfigurationEvent::Other => Outcome::Open,
        ConfigurationEvent::Closed => Outcome::Wrong,
    }
}

fn is_plain(task: Task) -> (plain: bool)
    ensures
        plain == is_plain_task(task),
{
    match task {
        Task::OpenDocument
        | Task::Save
        | Task::Restart
        | Task::Press(_)
        | Task::WriteKeymap(_)
        | Task::WriteSettings(_)
        | Task::Type(_)
        | Task::ReadHover
        | Task::ReadServers
        | Task::MoveCaret
        | Task::Start(_)
        | Task::GoToDiagnostic
        | Task::CloseTabs
        | Task::Rest => true,
        _ => false,
    }
}

fn is_taken_back(task: Task) -> (result: bool)
    ensures
        result == takes_back(task),
{
    match task {
        Task::UndoCompletion | Task::ApplyCodeAction | Task::FormatDocument
        | Task::FormatSelection => true,
        _ => false,
    }
}

/// Whether sources are as they were.
pub fn is_unchanged(before: &Vec<SourceText>, after: &Vec<SourceText>) -> (result: bool)
    ensures
        result == unchanged(before@, after@),
{
    let paths = changed_paths(before, after);
    assert(texts(paths@).len() == paths@.len());
    before.len() == after.len() && paths.len() == 0
}

fn must_find(task: Task) -> (must: bool)
    ensures
        must == finds(task),
{
    match task {
        Task::ConfirmCompletion | Task::ListDiagnostics | Task::GoToDefinition => true,
        _ => false,
    }
}

fn judge_opened(task: Task, text: &str, disk: &str) -> (outcome: Outcome)
    ensures
        outcome == opened_outcome(task, text@, disk@),
{
    match task {
        Task::OpenFixture => decide(same_text(text, disk)),
        Task::OpenMarked => decide(marker_position(text).is_some()),
        _ => Outcome::Wrong,
    }
}

fn judge_completions(task: Task, end: &RequestEnd) -> (outcome: Outcome)
    ensures
        outcome == completions_outcome(task, *end),
{
    match task {
        Task::Register | Task::Recover => match end {
            RequestEnd::Completed(list) => wait_for(list.len() == 2),
            _ => Outcome::Open,
        },
        Task::AskForCompletions { .. } => Outcome::Met,
        Task::CollectCompletions => match end {
            RequestEnd::Completed(_) => Outcome::Met,
            _ => Outcome::Wrong,
        },
        _ => Outcome::Wrong,
    }
}

fn judge_settings(task: Task, own: &EffectiveLanguageSettings) -> (outcome: Outcome)
    ensures
        outcome == settings_outcome(task, own@),
{
    match task {
        Task::AwaitSettings(expected) => wait_for(same_settings(own, &expected.settings())),
        Task::KeepSettings(expected) => decide(same_settings(own, &expected.settings())),
        Task::AwaitFormatterOff => wait_for(same_text(own.format_on_save.as_str(), "off")),
        _ => Outcome::Wrong,
    }
}

fn judge_disk(task: Task, dirty: bool, disk: &str, expected: &str) -> (outcome: Outcome)
    ensures
        outcome == disk_outcome(task, dirty, disk@, expected@),
{
    match task {
        Task::ReadAfterFailure => decide(is_failed_save_harmless(dirty, disk, expected)),
        Task::ReadEdited => decide(is_saved(dirty, disk, expected)),
        Task::ReadFormatted => decide(same_text(disk, "fn main() { let value = 1; }\n")),
        Task::ReadDisk => Outcome::Met,
        _ => Outcome::Wrong,
    }
}

fn judge_diagnostics(task: Task, errors: usize, warnings: usize) -> (outcome: Outcome)
    ensures
        outcome == diagnostics_outcome(task, errors as int, warnings as int),
{
    match task {
        Task::ReadDiagnostics => Outcome::Met,
        Task::AwaitManyDiagnostics => wait_for(errors.saturating_add(warnings) >= 10_000),
        Task::AwaitDiagnostics => wait_for(errors > 0 || warnings > 0),
        _ => Outcome::Wrong,
    }
}

fn judge_sources(task: Task, before: &Vec<SourceText>, after: &Vec<SourceText>) -> (outcome:
    Outcome)
    ensures
        outcome == sources_outcome(task, before@, after@),
{
    match task {
        Task::InsertMark => {
            let paths = changed_paths(before, after);
            assert(texts(paths@).len() == paths@.len());
            decide(paths.len() == 1)
        },
        Task::UndoMark => decide(is_unchanged(before, after)),
        _ => Outcome::Wrong,
    }
}

/// What a look at what came of a task shows.
pub fn judge(task: Task, evidence: &Evidence) -> (outcome: Outcome)
    ensures
        outcome == judged(task, *evidence),
{
    match evidence {
        Evidence::Done => decide(is_plain(task)),
        Evidence::Failed(_) => decide(task == Task::FailToSave),
        Evidence::Opened { text, disk } => judge_opened(task, text.as_str(), disk.as_str()),
        Evidence::Servers(list) => match task {
            Task::AwaitServer { .. } => wait_for(is_analyzer_ready(list)),
            _ => Outcome::Wrong,
        },
        Evidence::Answered(end) => judge_completions(task, end),
        Evidence::Edited { dirty, original, edited, after_undo, after_redo } => decide(
            task == Task::EditAndBack && is_history_intact(
                *dirty,
                original.as_str(),
                edited.as_str(),
                after_undo.as_str(),
                after_redo.as_str(),
            ),
        ),
        Evidence::Settings(own) => judge_settings(task, own),
        Evidence::Disk { dirty, disk, expected } => judge_disk(
            task,
            *dirty,
            disk.as_str(),
            expected.as_str(),
        ),
        Evidence::Diagnostics { errors, warnings } => judge_diagnostics(task, *errors, *warnings),
        Evidence::Closed { elapsed_ms } => decide(
            task == Task::CloseEditor && is_closed_in_time(*elapsed_ms),
        ),
        Evidence::Configuration(event) => match task {
            Task::AwaitConfiguration { file, success } => judge_configuration(file, success, event),
            _ => Outcome::Wrong,
        },
        Evidence::Action(event) => match task {
            Task::AwaitAction(wanted) => judge_action(Some(wanted), event),
            Task::StayQuiet => judge_action(None, event),
            _ => Outcome::Wrong,
        },
        Evidence::Answer { buffer, generation, event } => match task {
            Task::AwaitAnswer(request) => judge_answer(request, *buffer, *generation, *event),
            _ => Outcome::Wrong,
        },
        Evidence::Visible(visible) => match task {
            Task::AwaitMenu => wait_for(*visible),
            _ => Outcome::Wrong,
        },
        Evidence::Items(count) => decide(
            task == Task::CollectDiagnostics || must_find(task) && *count > 0,
        ),
        Evidence::Text(text) => decide(
            task == Task::PreviewRename || task == Task::OpenReferences && holds_text(
                text.as_str(),
                "stub_",
            ),
        ),
        Evidence::Sources { before, after } => judge_sources(task, before, after),
        Evidence::Undone { .. } => decide(is_taken_back(task)),
        Evidence::Rejected { before, after, .. } => decide(
            task == Task::RejectRename && is_unchanged(before, after),
        ),
        Evidence::Renamed { .. } => decide(task == Task::UndoRename),
        Evidence::Signatures { previewed, confirmed } => decide(
            task == Task::ConfirmRename && same_text(previewed.as_str(), confirmed.as_str()),
        ),
        Evidence::Counts { changed, recorded } => decide(
            task == Task::PerformRename && *changed == *recorded,
        ),
    }
}

/// The script of the probe of the settings: files of the configuration that
/// break are told of, and what was in effect stays so until they are mended.
pub fn settings_script() -> (tasks: Vec<Task>)
    ensures
        tasks@ == settings_tasks(),
{
    let tasks: Vec<Task> = vec![
        Task::OpenDocument,
        Task::AwaitConfiguration { file: ConfigurationFile::Keymap, success: true },
        Task::AwaitSettings(Expected::Initial),
        Task::Press(Keys::Palette),
        Task::AwaitAction(Wanted::CommandPalette),
        Task::Press(Keys::F1),
        Task::StayQuiet,
        Task::WriteKeymap(KeymapText::Broken),
        Task::AwaitConfiguration { file: ConfigurationFile::Keymap, success: false },
        Task::Press(Keys::Palette),
        Task::AwaitAction(Wanted::CommandPalette),
        Task::WriteKeymap(KeymapText::Replacement),
        Task::AwaitConfiguration { file: ConfigurationFile::Keymap, success: true },
        Task::Press(Keys::F3),
        Task::AwaitAction(Wanted::Hover),
        Task::Press(Keys::F1),
        Task::StayQuiet,
        Task::WriteSettings(SettingsText::Updated),
        Task::AwaitSettings(Expected::Updated),
        Task::AwaitServer { patience: 10_000, pause: 10, lenient: false },
        Task::Type(Typing::First),
        Task::Save,
        Task::ReadFormatted,
        Task::WriteSettings(SettingsText::Broken),
        Task::AwaitConfiguration { file: ConfigurationFile::ProjectSettings, success: false },
        Task::KeepSettings(Expected::Updated),
        Task::WriteSettings(SettingsText::Recovered),
        Task::AwaitSettings(Expected::Recovered),
        Task::AwaitConfiguration { file: ConfigurationFile::ProjectSettings, success: true },
        Task::Type(Typing::Second),
        Task::Save,
        Task::ReadDisk,
    ];
    assert(tasks@ =~= settings_tasks());
    tasks
}

/// The tasks of the probe of the settings.
pub open spec fn settings_tasks() -> Seq<Task> {
    seq![
        Task::OpenDocument,
        Task::AwaitConfiguration { file: ConfigurationFile::Keymap, success: true },
        Task::AwaitSettings(Expected::Initial),
        Task::Press(Keys::Palette),
        Task::AwaitAction(Wanted::CommandPalette),
        Task::Press(Keys::F1),
        Task::StayQuiet,
        Task::WriteKeymap(KeymapText::Broken),
        Task::AwaitConfiguration { file: ConfigurationFile::Keymap, success: false },
        Task::Press(Keys::Palette),
        Task::AwaitAction(Wanted::CommandPalette),
        Task::WriteKeymap(KeymapText::Replacement),
        Task::AwaitConfiguration { file: ConfigurationFile::Keymap, success: true },
        Task::Press(Keys::F3),
        Task::AwaitAction(Wanted::Hover),
        Task::Press(Keys::F1),
        Task::StayQuiet,
        Task::WriteSettings(SettingsText::Updated),
        Task::AwaitSettings(Expected::Updated),
        Task::AwaitServer { patience: 10_000, pause: 10, lenient: false },
        Task::Type(Typing::First),
        Task::Save,
        Task::ReadFormatted,
        Task::WriteSettings(SettingsText::Broken),
        Task::AwaitConfiguration { file: ConfigurationFile::ProjectSettings, success: false },
        Task::KeepSettings(Expected::Updated),
        Task::WriteSettings(SettingsText::Recovered),
        Task::AwaitSettings(Expected::Recovered),
        Task::AwaitConfiguration { file: ConfigurationFile::ProjectSettings, success: true },
        Task::Type(Typing::Second),
        Task::Save,
        Task::ReadDisk,
    ]
}

/// The tasks of the probe of the language services.
pub open spec fn language_tasks() -> Seq<Task> {
    seq![
        Task::OpenMarked,
        Task::AwaitServer { patience: 15_000, pause: 25, lenient: false },
        Task::CollectCompletions,
        Task::ReadHover,
        Task::AwaitDiagnostics,
        Task::ReadServers,
        Task::MoveCaret,
        Task::Start(Request::Completions),
        Task::AwaitAnswer(Request::Completions),
        Task::AwaitMenu,
        Task::ConfirmCompletion,
        Task::UndoCompletion,
        Task::Start(Request::Hover),
        Task::AwaitAnswer(Request::Hover),
        Task::ListDiagnostics,
        Task::GoToDiagnostic,
        Task::Start(Request::Locations(LocationRequestKind::Definition)),
        Task::AwaitAnswer(Request::Locations(LocationRequestKind::Definition)),
        Task::Start(Request::Locations(LocationRequestKind::TypeDefinition)),
        Task::AwaitAnswer(Request::Locations(LocationRequestKind::TypeDefinition)),
        Task::Start(Request::Locations(LocationRequestKind::References)),
        Task::AwaitAnswer(Request::Locations(LocationRequestKind::References)),
        Task::Start(Request::Locations(LocationRequestKind::ProjectSymbols)),
        Task::AwaitAnswer(Request::Locations(LocationRequestKind::ProjectSymbols)),
        Task::GoToDefinition,
        Task::OpenReferences,
        Task::InsertMark,
        Task::Save,
        Task::ReadDisk,
        Task::UndoMark,
        Task::Save,
        Task::ReadDisk,
        Task::Rest,
        Task::MoveCaret,
        Task::Start(Request::Rename),
        Task::AwaitAnswer(Request::Rename),
        Task::RejectRename,
        Task::PreviewRename,
        Task::ConfirmRename,
        Task::PerformRename,
        Task::UndoRename,
        Task::Rest,
        Task::MoveCaret,
        Task::Start(Request::CodeActions),
        Task::AwaitAnswer(Request::CodeActions),
        Task::ApplyCodeAction,
        Task::Rest,
        Task::FormatDocument,
        Task::Rest,
        Task::FormatSelection,
        Task::CloseTabs,
        Task::Rest,
    ]
}

/// The script of the probe of the language services: every service answers,
/// and every edit that it makes can be undone.
pub fn language_script() -> (tasks: Vec<Task>)
    ensures
        tasks@ == language_tasks(),
{
    let tasks: Vec<Task> = vec![
        Task::OpenMarked,
        Task::AwaitServer { patience: 15_000, pause: 25, lenient: false },
        Task::CollectCompletions,
        Task::ReadHover,
        Task::AwaitDiagnostics,
        Task::ReadServers,
        Task::MoveCaret,
        Task::Start(Request::Completions),
        Task::AwaitAnswer(Request::Completions),
        Task::AwaitMenu,
        Task::ConfirmCompletion,
        Task::UndoCompletion,
        Task::Start(Request::Hover),
        Task::AwaitAnswer(Request::Hover),
        Task::ListDiagnostics,
        Task::GoToDiagnostic,
        Task::Start(Request::Locations(LocationRequestKind::Definition)),
        Task::AwaitAnswer(Request::Locations(LocationRequestKind::Definition)),
        Task::Start(Request::Locations(LocationRequestKind::TypeDefinition)),
        Task::AwaitAnswer(Request::Locations(LocationRequestKind::TypeDefinition)),
        Task::Start(Request::Locations(LocationRequestKind::References)),
        Task::AwaitAnswer(Request::Locations(LocationRequestKind::References)),
        Task::Start(Request::Locations(LocationRequestKind::ProjectSymbols)),
        Task::AwaitAnswer(Request::Locations(LocationRequestKind::ProjectSymbols)),
        Task::GoToDefinition,
        Task::OpenReferences,
        Task::InsertMark,
        Task::Save,
        Task::ReadDisk,
        Task::UndoMark,
        Task::Save,
        Task::ReadDisk,
        Task::Rest,
        Task::MoveCaret,
        Task::Start(Request::Rename),
        Task::AwaitAnswer(Request::Rename),
        Task::RejectRename,
        Task::PreviewRename,
        Task::ConfirmRename,
        Task::PerformRename,
        Task::UndoRename,
        Task::Rest,
        Task::MoveCaret,
        Task::Start(Request::CodeActions),
        Task::AwaitAnswer(Request::CodeActions),
        Task::ApplyCodeAction,
        Task::Rest,
        Task::FormatDocument,
        Task::Rest,
        Task::FormatSelection,
        Task::CloseTabs,
        Task::Rest,
    ];
    assert(tasks@ =~= language_tasks());
    tasks
}

/// The tasks of the probe of a server that fails.
pub open spec fn failure_tasks(scenario: Seq<char>) -> Seq<Task> {
    let opening = seq![
        Task::OpenFixture,
        Task::AwaitServer { patience: ready_time(scenario), pause: 10, lenient: true },
    ];
    let registering = if scenario == "formatter-error"@ {
        seq![Task::Register]
    } else {
        Seq::empty()
    };
    let formatting = if scenario == "formatter-error"@ {
        seq![
            Task::AwaitSettings(Expected::Formatting),
            Task::FailToSave,
            Task::ReadAfterFailure,
            Task::WriteSettings(SettingsText::FormatterOff),
            Task::AwaitFormatterOff,
        ]
    } else {
        Seq::empty()
    };
    let asking = if scenario == "restart-once"@ {
        seq![Task::Restart, Task::Recover]
    } else {
        seq![Task::AskForCompletions { timeout: answer_time(scenario) }]
    };
    let diagnosing = if scenario == "large-payloads"@ {
        seq![Task::AwaitManyDiagnostics, Task::CollectDiagnostics]
    } else {
        seq![Task::ReadDiagnostics]
    };
    opening + registering + seq![Task::EditAndBack] + formatting + seq![
        Task::Save,
        Task::ReadEdited,
    ] + asking + diagnosing + seq![Task::CloseEditor]
}

/// The script of the probe of a server that fails: whatever it does, the
/// document can be edited, saved, and closed.
pub fn failure_script(scenario: &str) -> (tasks: Vec<Task>)
    ensures
        tasks@ == failure_tasks(scenario@),
{
    let formatter = same_text(scenario, "formatter-error");
    let mut tasks: Vec<Task> = vec![
        Task::OpenFixture,
        Task::AwaitServer { patience: ready_timeout(scenario), pause: 10, lenient: true },
    ];
    if formatter {
        tasks.push(Task::Register);
    }
    tasks.push(Task::EditAndBack);
    if formatter {
        tasks.push(Task::AwaitSettings(Expected::Formatting));
        tasks.push(Task::FailToSave);
        tasks.push(Task::ReadAfterFailure);
        tasks.push(Task::WriteSettings(SettingsText::FormatterOff));
        tasks.push(Task::AwaitFormatterOff);
    }
    tasks.push(Task::Save);
    tasks.push(Task::ReadEdited);
    if same_text(scenario, "restart-once") {
        tasks.push(Task::Restart);
        tasks.push(Task::Recover);
    } else {
        tasks.push(Task::AskForCompletions { timeout: request_timeout(scenario) });
    }
    if same_text(scenario, "large-payloads") {
        tasks.push(Task::AwaitManyDiagnostics);
        tasks.push(Task::CollectDiagnostics);
    } else {
        tasks.push(Task::ReadDiagnostics);
    }
    tasks.push(Task::CloseEditor);
    assert(tasks@ =~= failure_tasks(scenario@));
    tasks
}

/// Whatever a failing server does, the probe passes only over an edit that
/// could be undone and redone, a file that was saved, and an editor that
/// closed.
pub proof fn failures_leave_the_editor_usable(scenario: Seq<char>)
    ensures
        failure_tasks(scenario).contains(Task::EditAndBack),
        failure_tasks(scenario).contains(Task::ReadEdited),
        failure_tasks(scenario).last() == Task::CloseEditor,
        scenario == "formatter-error"@ ==> failure_tasks(scenario).contains(Task::ReadAfterFailure),
        scenario == "restart-once"@ ==> failure_tasks(scenario).contains(Task::Recover),
{
    let tasks = failure_tasks(scenario);
    let formatter = scenario == "formatter-error"@;
    let edit: int = if formatter {
        3
    } else {
        2
    };
    assert(tasks[edit] == Task::EditAndBack);
    let read: int = if formatter {
        10
    } else {
        4
    };
    assert(tasks[read] == Task::ReadEdited);
    if formatter {
        assert(tasks[6] == Task::ReadAfterFailure);
    }
    if scenario == "restart-once"@ {
        reveal_strlit("restart-once");
        reveal_strlit("formatter-error");
        assert("restart-once"@.len() != "formatter-error"@.len());
        assert(tasks[6] == Task::Recover);
    }
}

/// How long a task may take until what it waits for is there.
#[derive(Clone, Copy, Debug, PartialEq, Eq, Structural)]
pub struct Pace {
    /// The time that it has, in milliseconds; without any, the first look
    /// decides.
    pub patience: u64,
    /// The time between two looks.
    pub pause: u64,
    /// The time before the first look.
    pub delay: u64,
    /// Its time counts from its own start, not from that of the task before.
    pub own_time: bool,
    /// The script goes on when the time is up.
    pub lenient: bool,
}

/// What a look at a task shows.
#[derive(Clone, Copy, Debug, PartialEq, Eq, Structural)]
pub enum Outcome {
    /// It came out as it must.
    Met,
    /// It is not decided yet.
    Open,
    Wrong,
}

/// What a probe does next.
#[derive(Clone, Copy, Debug, PartialEq, Eq, Structural)]
pub enum Step {
    /// Performs a task, after a while.
    Perform { task: Task, after: u64 },
    Finished,
    /// A task came out wrong, or too late.
    Failed { task: Task, late: bool },
    /// The probe has ended before.
    Over,
}

/// A point in time that much later.
pub open spec fn later(now: u64, by: u64) -> u64 {
    if now + by > u64::MAX {
        u64::MAX
    } else {
        (now + by) as u64
    }
}

/// The state of a probe.
pub struct Run {
    pub tasks: Seq<Task>,
    /// The task that is under way.
    pub current: int,
    pub deadline: u64,
    pub over: bool,
}

impl Run {
    /// The state is one of a probe.
    pub open spec fn valid(self) -> bool {
        self.over || 0 <= self.current < self.tasks.len()
    }

    /// A probe that starts.
    pub open spec fn started(tasks: Seq<Task>, now: u64) -> Run {
        Run {
            tasks,
            current: 0,
            deadline: if tasks.len() == 0 {
                now
            } else {
                later(now, pace_of(tasks[0]).patience)
            },
            over: tasks.len() == 0,
        }
    }

    /// Whether the task under way is done with: it is met, or its time is up
    /// and does not matter.
    pub open spec fn passes(self, outcome: Outcome, now: u64) -> bool {
        outcome is Met || outcome is Open && now >= self.deadline && pace_of(
            self.tasks[self.current],
        ).lenient
    }

    /// Whether the task under way spoils the probe.
    pub open spec fn spoils(self, outcome: Outcome, now: u64) -> bool {
        outcome is Wrong || outcome is Open && now >= self.deadline && !pace_of(
            self.tasks[self.current],
        ).lenient
    }

    /// The state after a look at the task under way.
    pub open spec fn after(self, outcome: Outcome, now: u64) -> Run {
        if self.over {
            self
        } else if self.passes(outcome, now) {
            if self.current + 1 == self.tasks.len() {
                Run { over: true, ..self }
            } else {
                let pace = pace_of(self.tasks[self.current + 1]);
                Run {
                    current: self.current + 1,
                    deadline: if pace.own_time {
                        later(now, pace.patience)
                    } else {
                        self.deadline
                    },
                    ..self
                }
            }
        } else if self.spoils(outcome, now) {
            Run { over: true, ..self }
        } else {
            self
        }
    }

    /// What the probe does after a look at the task under way.
    pub open spec fn step(self, outcome: Outcome, now: u64) -> Step {
        let task = self.tasks[self.current];
        if self.over {
            Step::Over
        } else if self.passes(outcome, now) {
            if self.current + 1 == self.tasks.len() {
                Step::Finished
            } else {
                let next = self.tasks[self.current + 1];
                Step::Perform { task: next, after: pace_of(next).delay }
            }
        } else if self.spoils(outcome, now) {
            Step::Failed { task, late: outcome is Open }
        } else {
            Step::Perform { task, after: pace_of(task).pause }
        }
    }
}

/// A script that runs.
#[derive(Debug)]
pub struct Script {
    tasks: Vec<Task>,
    current: usize,
    deadline: u64,
    over: bool,
}

impl View for Script {
    type V = Run;

    closed spec fn view(&self) -> Run {
        Run {
            tasks: self.tasks@,
            current: self.current as int,
            deadline: self.deadline,
            over: self.over,
        }
    }
}

fn add_time(now: u64, by: u64) -> (time: u64)
    ensures
        time == later(now, by),
{
    now.saturating_add(by)
}

impl Script {
    #[verifier::type_invariant]
    spec fn sound(self) -> bool {
        self.over || self.current < self.tasks@.len()
    }

    /// Starts a script.
    pub fn start(tasks: Vec<Task>, now: u64) -> (script: Self)
        ensures
            script@ == Run::started(tasks@, now),
            script@.valid(),
    {
        if tasks.len() == 0 {
            return Script { tasks, current: 0, deadline: now, over: true };
        }
        let deadline: u64 = add_time(now, pace(tasks[0]).patience);
        Script { tasks, current: 0, deadline, over: false }
    }

    /// The task under way.
    pub fn task(&self) -> (task: Option<Task>)
        ensures
            task == if self@.over {
                None
            } else {
                Some(self@.tasks[self@.current])
            },
    {
        proof {
            use_type_invariant(self);
        }
        if self.over {
            None
        } else {
            Some(self.tasks[self.current])
        }
    }

    /// Takes what a look at the task under way shows.
    pub fn take(&mut self, outcome: Outcome, now: u64) -> (step: Step)
        ensures
            final(self)@ == old(self)@.after(outcome, now),
            step == old(self)@.step(outcome, now),
            final(self)@.valid(),
    {
        proof {
            use_type_invariant(&*self);
        }
        if self.over {
            return Step::Over;
        }
        let task = self.tasks[self.current];
        let own = pace(task);
        let late = now >= self.deadline;
        let passes = match outcome {
            Outcome::Met => true,
            Outcome::Open => late && own.lenient,
            Outcome::Wrong => false,
        };
        if passes {
            let total: usize = self.tasks.len();
            if self.current == total - 1 {
                self.over = true;
                return Step::Finished;
            }
            let next = self.tasks[self.current + 1];
            let pace = pace(next);
            self.current = self.current + 1;
            if pace.own_time {
                self.deadline = add_time(now, pace.patience);
            }
            return Step::Perform { task: next, after: pace.delay };
        }
        match outcome {
            Outcome::Wrong => {
                self.over = true;
                Step::Failed { task, late: false }
            },
            _ => if late {
                self.over = true;
                Step::Failed { task, late: true }
            } else {
                Step::Perform { task, after: own.pause }
            },
        }
    }

    /// Takes what came of the task under way.
    pub fn next(&mut self, evidence: &Evidence, now: u64) -> (step: Step)
        ensures
            old(self)@.over ==> final(self)@ == old(self)@ && step is Over,
            !old(self)@.over ==> ({
                let outcome = judged(old(self)@.tasks[old(self)@.current], *evidence);
                final(self)@ == old(self)@.after(outcome, now) && step == old(self)@.step(
                    outcome,
                    now,
                )
            }),
            final(self)@.valid(),
    {
        proof {
            use_type_invariant(&*self);
        }
        if self.over {
            return Step::Over;
        }
        let outcome = judge(self.tasks[self.current], evidence);
        self.take(outcome, now)
    }

    /// Takes what came of the task under way, and keeps it once the task is done
    /// with.
    pub fn advance(&mut self, evidence: Evidence, now: u64, seen: &mut Vec<Evidence>) -> (step: Step)
        ensures
            old(self)@.over ==> final(self)@ == old(self)@ && step is Over && final(seen)@ == old(
                seen,
            )@,
            !old(self)@.over ==> ({
                let outcome = judged(old(self)@.tasks[old(self)@.current], evidence);
                &&& final(self)@ == old(self)@.after(outcome, now)
                &&& step == old(self)@.step(outcome, now)
                &&& final(seen)@ == if old(self)@.passes(outcome, now) {
                    old(seen)@.push(evidence)
                } else {
                    old(seen)@
                }
            }),
            final(self)@.valid(),
    {
        proof {
            use_type_invariant(&*self);
        }
        let place: usize = self.current;
        let step = self.next(&evidence, now);
        let passed = match step {
            Step::Finished => true,
            Step::Perform { .. } => self.current > place,
            _ => false,
        };
        if passed {
            seen.push(evidence);
        }
        step
    }
}

/// Whether a task can be done with on this evidence.
pub open spec fn suffices(task: Task, evidence: Evidence) -> bool {
    judged(task, evidence) is Met || judged(task, evidence) is Open && pace_of(task).lenient
}

/// Whether evidence is kept for the first tasks, one piece for each, on which it
/// can be done with.
pub open spec fn vouched(tasks: Seq<Task>, seen: Seq<Evidence>) -> bool {
    seen.len() <= tasks.len() && forall|i: int|
        0 <= i < seen.len() ==> suffices(tasks[i], #[trigger] seen[i])
}

/// What `advance` keeps of a probe vouches for each task that is done with; at
/// the end, for each task.
pub proof fn evidence_is_kept_for_each_task(
    run: Run,
    seen: Seq<Evidence>,
    evidence: Evidence,
    now: u64,
)
    requires
        run.valid(),
        !run.over,
        seen.len() == run.current,
        vouched(run.tasks, seen),
    ensures
        ({
            let outcome = judged(run.tasks[run.current], evidence);
            let kept = if run.passes(outcome, now) {
                seen.push(evidence)
            } else {
                seen
            };
            &&& vouched(run.tasks, kept)
            &&& !run.after(outcome, now).over ==> kept.len() == run.after(outcome, now).current
            &&& run.step(outcome, now) is Finished ==> kept.len() == run.tasks.len()
        }),
{
}

/// A probe goes on to another task only when the one before is met, or has had
/// its time where that does not matter.
pub proof fn tasks_are_left_when_they_are_met(run: Run, outcome: Outcome, now: u64)
    requires
        run.valid(),
        !run.over,
        run.after(outcome, now).current != run.current || run.step(outcome, now) is Finished,
    ensures
        run.after(outcome, now).current <= run.current + 1,
        outcome is Met || outcome is Open && now >= run.deadline && pace_of(
            run.tasks[run.current],
        ).lenient,
{
}

/// A task is not looked at again once its time is up.
pub proof fn probes_do_not_wait_forever(run: Run, outcome: Outcome, now: u64)
    requires
        run.valid(),
        now >= run.deadline,
    ensures
        run.after(outcome, now).over || run.after(outcome, now).current == run.current + 1,
{
}

/// A probe that is over stays so.
pub proof fn ended_probes_stay_ended(run: Run, outcome: Outcome, now: u64)
    requires
        run.over,
    ensures
        run.after(outcome, now) == run,
        run.step(outcome, now) is Over,
{
}

} // verus!
