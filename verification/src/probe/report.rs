//! What the probes report: plain values, drawn from the evidence that was kept
//! for each task of a script.

use vstd::prelude::*;
use vstd::string::*;

use crate::probe::script::{
    failure_script, failure_tasks, is_unchanged, language_script, language_tasks, settings_script,
    settings_tasks, suffices, unchanged, vouched, ConfigurationFile, Evidence, Expected, Task, Wanted,
};
use crate::probe::{
    analyzer_runs, answer_time, awaited, awaited_message, changed, changed_paths, find_text,
    is_analyzer_ready, ready_time, ready_timeout, reported, request_report, request_timeout,
    text_at, EffectiveLanguageSettings, RequestReport, RequestView, SettingsView, SourceText,
};
use crate::text::{holds, holds_text, optional_text, same_text, texts};

verus! {

broadcast use vstd::string::group_string_axioms;

/// Where a task stands for the `n`th time, from an index on; the first time is
/// the zeroth.
pub open spec fn place(tasks: Seq<Task>, task: Task, n: int, from: int) -> Option<int>
    decreases tasks.len() - from,
{
    if from >= tasks.len() {
        None
    } else if tasks[from] == task {
        if n <= 0 {
            Some(from)
        } else {
            place(tasks, task, n - 1, from + 1)
        }
    } else {
        place(tasks, task, n, from + 1)
    }
}

/// The evidence that was kept when a task was done with for the `n`th time.
pub open spec fn kept(tasks: Seq<Task>, seen: Seq<Evidence>, task: Task, n: int) -> Option<
    Evidence,
> {
    match place(tasks, task, n, 0) {
        Some(i) => if i < seen.len() {
            Some(seen[i])
        } else {
            None
        },
        None => None,
    }
}

/// A piece of evidence itself.
pub open spec fn owned(evidence: Option<&Evidence>) -> Option<Evidence> {
    match evidence {
        Some(evidence) => Some(*evidence),
        None => None,
    }
}

fn look<'a>(tasks: &Vec<Task>, seen: &'a Vec<Evidence>, task: Task, n: usize) -> (evidence: Option<
    &'a Evidence,
>)
    ensures
        owned(evidence) == kept(tasks@, seen@, task, n as int),
{
    let mut left: usize = n;
    let mut i: usize = 0;
    while i < tasks.len()
        invariant
            i <= tasks@.len(),
            place(tasks@, task, n as int, 0) == place(tasks@, task, left as int, i as int),
        decreases tasks@.len() - i,
    {
        if tasks[i] == task {
            if left == 0 {
                if i < seen.len() {
                    return Some(&seen[i]);
                }
                return None;
            }
            left -= 1;
        }
        i += 1;
    }
    None
}

/// The settings that were seen.
pub open spec fn settings_in(evidence: Option<Evidence>) -> Option<SettingsView> {
    match evidence {
        Some(Evidence::Settings(own)) => Some(own@),
        _ => None,
    }
}

/// The plain values of settings, if there are any.
pub open spec fn optional_settings(settings: Option<EffectiveLanguageSettings>) -> Option<
    SettingsView,
> {
    match settings {
        Some(own) => Some(own@),
        None => None,
    }
}

fn take_settings(evidence: Option<&Evidence>) -> (settings: Option<EffectiveLanguageSettings>)
    ensures
        optional_settings(settings) == settings_in(owned(evidence)),
{
    match evidence {
        Some(Evidence::Settings(own)) => Some(
            EffectiveLanguageSettings {
                tab_size: own.tab_size,
                format_on_save: own.format_on_save.clone(),
                completion_lsp: own.completion_lsp,
                show_completions_on_input: own.show_completions_on_input,
            },
        ),
        _ => None,
    }
}

/// What was seen on disk.
pub open spec fn disk_in(evidence: Option<Evidence>) -> Option<Seq<char>> {
    match evidence {
        Some(Evidence::Disk { disk, .. }) => Some(disk@),
        _ => None,
    }
}

fn take_disk(evidence: Option<&Evidence>) -> (disk: Option<String>)
    ensures
        optional_text(disk) == disk_in(owned(evidence)),
{
    match evidence {
        Some(Evidence::Disk { disk, .. }) => Some(disk.clone()),
        _ => None,
    }
}

/// What was told of a file of the configuration that was read again.
pub open spec fn message_in(
    evidence: Option<Evidence>,
    file: ConfigurationFile,
    success: bool,
) -> Option<Seq<char>> {
    match evidence {
        Some(Evidence::Configuration(event)) => awaited(event, file.word(), success),
        _ => None,
    }
}

fn take_message(evidence: Option<&Evidence>, file: ConfigurationFile, success: bool) -> (message:
    Option<String>)
    ensures
        optional_text(message) == message_in(owned(evidence), file, success),
{
    match evidence {
        Some(Evidence::Configuration(event)) => awaited_message(event, file.name(), success),
        _ => None,
    }
}

/// How many errors and warnings were seen; none where nobody looked.
pub open spec fn diagnostics_in(evidence: Option<Evidence>) -> (usize, usize) {
    match evidence {
        Some(Evidence::Diagnostics { errors, warnings }) => (errors, warnings),
        _ => (0, 0),
    }
}

fn take_diagnostics(evidence: Option<&Evidence>) -> (counts: (usize, usize))
    ensures
        counts == diagnostics_in(owned(evidence)),
{
    match evidence {
        Some(Evidence::Diagnostics { errors, warnings }) => (*errors, *warnings),
        _ => (0, 0),
    }
}

/// What is reported of a server that fails.
#[derive(Debug, PartialEq, Eq)]
pub struct FailureReport {
    /// Whether the server was up before its fault showed.
    pub initially_ready: bool,
    pub restart_requested: bool,
    /// Whether the user is told that there are no completions to be had.
    pub tells_user: bool,
    pub request: Option<RequestReport>,
    pub errors: usize,
    pub warnings: usize,
    pub item_count: usize,
    pub dirty_after_edit: bool,
    pub undo_restored: bool,
    pub redo_restored: bool,
    pub saved: bool,
    pub close_elapsed_ms: Option<u64>,
    /// Why a save failed, where a formatter was to fail it.
    pub formatter_error: Option<String>,
    pub formatter_dirty: Option<bool>,
    pub formatter_disk: Option<String>,
}

/// The plain values of what is reported of a server that fails.
pub struct FailureView {
    pub initially_ready: bool,
    pub restart_requested: bool,
    pub tells_user: bool,
    pub request: Option<RequestView>,
    pub errors: usize,
    pub warnings: usize,
    pub item_count: usize,
    pub dirty_after_edit: bool,
    pub undo_restored: bool,
    pub redo_restored: bool,
    pub saved: bool,
    pub close_elapsed_ms: Option<u64>,
    pub formatter_error: Option<Seq<char>>,
    pub formatter_dirty: Option<bool>,
    pub formatter_disk: Option<Seq<char>>,
}

impl View for FailureReport {
    type V = FailureView;

    open spec fn view(&self) -> FailureView {
        FailureView {
            initially_ready: self.initially_ready,
            restart_requested: self.restart_requested,
            tells_user: self.tells_user,
            request: match self.request {
                Some(request) => Some(request@),
                None => None,
            },
            errors: self.errors,
            warnings: self.warnings,
            item_count: self.item_count,
            dirty_after_edit: self.dirty_after_edit,
            undo_restored: self.undo_restored,
            redo_restored: self.redo_restored,
            saved: self.saved,
            close_elapsed_ms: self.close_elapsed_ms,
            formatter_error: optional_text(self.formatter_error),
            formatter_dirty: self.formatter_dirty,
            formatter_disk: optional_text(self.formatter_disk),
        }
    }
}

/// The task that asks a failing server for completions.
pub open spec fn asking_task(scenario: Seq<char>) -> Task {
    if scenario == "restart-once"@ {
        Task::Recover
    } else {
        Task::AskForCompletions { timeout: answer_time(scenario) }
    }
}

/// The task that looks at the diagnostics of a failing server.
pub open spec fn diagnosing_task(scenario: Seq<char>) -> Task {
    if scenario == "large-payloads"@ {
        Task::AwaitManyDiagnostics
    } else {
        Task::ReadDiagnostics
    }
}

/// The sum of two counts, or the greatest one.
pub open spec fn capped_sum(a: usize, b: usize) -> usize {
    if a + b > usize::MAX {
        usize::MAX
    } else {
        (a + b) as usize
    }
}

/// What is to be reported of a server that fails.
pub open spec fn failure_values(scenario: Seq<char>, seen: Seq<Evidence>) -> FailureView {
    let tasks = failure_tasks(scenario);
    let ready = match kept(
        tasks,
        seen,
        Task::AwaitServer { patience: ready_time(scenario), pause: 10, lenient: true },
        0,
    ) {
        Some(Evidence::Servers(list)) => analyzer_runs(list@),
        _ => false,
    };
    let (errors, warnings) = diagnostics_in(kept(tasks, seen, diagnosing_task(scenario), 0));
    let edited = kept(tasks, seen, Task::EditAndBack, 0);
    let failed = kept(tasks, seen, Task::ReadAfterFailure, 0);
    FailureView {
        initially_ready: ready,
        restart_requested: scenario == "restart-once"@,
        tells_user: !ready,
        request: match kept(tasks, seen, asking_task(scenario), 0) {
            Some(Evidence::Answered(end)) => Some(reported(end)),
            _ => None,
        },
        errors,
        warnings,
        item_count: if scenario == "large-payloads"@ {
            match kept(tasks, seen, Task::CollectDiagnostics, 0) {
                Some(Evidence::Items(count)) => count,
                _ => 0,
            }
        } else {
            capped_sum(errors, warnings)
        },
        dirty_after_edit: match edited {
            Some(Evidence::Edited { dirty, .. }) => dirty,
            _ => false,
        },
        undo_restored: match edited {
            Some(Evidence::Edited { original, after_undo, .. }) => after_undo@ == original@,
            _ => false,
        },
        redo_restored: match edited {
            Some(Evidence::Edited { edited, after_redo, .. }) => after_redo@ == edited@,
            _ => false,
        },
        saved: match kept(tasks, seen, Task::ReadEdited, 0) {
            Some(Evidence::Disk { disk, expected, .. }) => disk@ == expected@,
            _ => false,
        },
        close_elapsed_ms: match kept(tasks, seen, Task::CloseEditor, 0) {
            Some(Evidence::Closed { elapsed_ms }) => Some(elapsed_ms),
            _ => None,
        },
        formatter_error: match kept(tasks, seen, Task::FailToSave, 0) {
            Some(Evidence::Failed(error)) => Some(error@),
            _ => None,
        },
        formatter_dirty: match failed {
            Some(Evidence::Disk { dirty, .. }) => Some(dirty),
            _ => None,
        },
        formatter_disk: disk_in(failed),
    }
}

/// Reports a server that fails, from the evidence that was kept.
pub fn failure_report(scenario: &str, seen: &Vec<Evidence>) -> (report: FailureReport)
    ensures
        report@ == failure_values(scenario@, seen@),
{
    let tasks = failure_script(scenario);
    let restarts = same_text(scenario, "restart-once");
    let large = same_text(scenario, "large-payloads");
    let awaiting = Task::AwaitServer {
        patience: ready_timeout(scenario),
        pause: 10,
        lenient: true,
    };
    let initially_ready = match look(&tasks, seen, awaiting, 0) {
        Some(Evidence::Servers(list)) => is_analyzer_ready(list),
        _ => false,
    };
    let asking = if restarts {
        Task::Recover
    } else {
        Task::AskForCompletions { timeout: request_timeout(scenario) }
    };
    let request = match look(&tasks, seen, asking, 0) {
        Some(Evidence::Answered(end)) => Some(request_report(end)),
        _ => None,
    };
    let diagnosing = if large {
        Task::AwaitManyDiagnostics
    } else {
        Task::ReadDiagnostics
    };
    let (errors, warnings) = take_diagnostics(look(&tasks, seen, diagnosing, 0));
    let item_count: usize = if large {
        match look(&tasks, seen, Task::CollectDiagnostics, 0) {
            Some(Evidence::Items(count)) => *count,
            _ => 0,
        }
    } else {
        errors.saturating_add(warnings)
    };
    let (dirty_after_edit, undo_restored, redo_restored) = match look(
        &tasks,
        seen,
        Task::EditAndBack,
        0,
    ) {
        Some(Evidence::Edited { dirty, original, edited, after_undo, after_redo }) => (
            *dirty,
            same_text(after_undo.as_str(), original.as_str()),
            same_text(after_redo.as_str(), edited.as_str()),
        ),
        _ => (false, false, false),
    };
    let saved = match look(&tasks, seen, Task::ReadEdited, 0) {
        Some(Evidence::Disk { disk, expected, .. }) => same_text(disk.as_str(), expected.as_str()),
        _ => false,
    };
    let close_elapsed_ms: Option<u64> = match look(&tasks, seen, Task::CloseEditor, 0) {
        Some(Evidence::Closed { elapsed_ms }) => Some(*elapsed_ms),
        _ => None,
    };
    let formatter_error = match look(&tasks, seen, Task::FailToSave, 0) {
        Some(Evidence::Failed(error)) => Some(error.clone()),
        _ => None,
    };
    let failed = look(&tasks, seen, Task::ReadAfterFailure, 0);
    let formatter_dirty = match failed {
        Some(Evidence::Disk { dirty, .. }) => Some(*dirty),
        _ => None,
    };
    FailureReport {
        initially_ready,
        restart_requested: restarts,
        tells_user: !initially_ready,
        request,
        errors,
        warnings,
        item_count,
        dirty_after_edit,
        undo_restored,
        redo_restored,
        saved,
        close_elapsed_ms,
        formatter_error,
        formatter_dirty,
        formatter_disk: take_disk(failed),
    }
}

/// What is reported of settings and keys that are read again.
#[derive(Debug, PartialEq, Eq)]
pub struct SettingsReport {
    pub initial: Option<EffectiveLanguageSettings>,
    pub updated: Option<EffectiveLanguageSettings>,
    pub retained_after_invalid: Option<EffectiveLanguageSettings>,
    pub recovered: Option<EffectiveLanguageSettings>,
    pub format_on_save_disk: Option<String>,
    pub format_off_disk: Option<String>,
    pub settings_invalid_error: Option<String>,
    pub settings_recovery_status: Option<String>,
    pub keymap_initial_status: Option<String>,
    pub keymap_invalid_error: Option<String>,
    pub keymap_replacement_status: Option<String>,
    pub multi_chord_rebind: bool,
    pub unbind: bool,
    pub last_good_retained: bool,
    pub replacement_rebind: bool,
}

/// The plain values of what is reported of settings and keys.
pub struct SettingsReportView {
    pub initial: Option<SettingsView>,
    pub updated: Option<SettingsView>,
    pub retained_after_invalid: Option<SettingsView>,
    pub recovered: Option<SettingsView>,
    pub format_on_save_disk: Option<Seq<char>>,
    pub format_off_disk: Option<Seq<char>>,
    pub settings_invalid_error: Option<Seq<char>>,
    pub settings_recovery_status: Option<Seq<char>>,
    pub keymap_initial_status: Option<Seq<char>>,
    pub keymap_invalid_error: Option<Seq<char>>,
    pub keymap_replacement_status: Option<Seq<char>>,
    pub multi_chord_rebind: bool,
    pub unbind: bool,
    pub last_good_retained: bool,
    pub replacement_rebind: bool,
}

impl View for SettingsReport {
    type V = SettingsReportView;

    open spec fn view(&self) -> SettingsReportView {
        SettingsReportView {
            initial: optional_settings(self.initial),
            updated: optional_settings(self.updated),
            retained_after_invalid: optional_settings(self.retained_after_invalid),
            recovered: optional_settings(self.recovered),
            format_on_save_disk: optional_text(self.format_on_save_disk),
            format_off_disk: optional_text(self.format_off_disk),
            settings_invalid_error: optional_text(self.settings_invalid_error),
            settings_recovery_status: optional_text(self.settings_recovery_status),
            keymap_initial_status: optional_text(self.keymap_initial_status),
            keymap_invalid_error: optional_text(self.keymap_invalid_error),
            keymap_replacement_status: optional_text(self.keymap_replacement_status),
            multi_chord_rebind: self.multi_chord_rebind,
            unbind: self.unbind,
            last_good_retained: self.last_good_retained,
            replacement_rebind: self.replacement_rebind,
        }
    }
}

/// What was told when a file of the configuration was read again for the `n`th
/// time, well or not.
pub open spec fn told(
    seen: Seq<Evidence>,
    file: ConfigurationFile,
    success: bool,
    n: int,
) -> Option<Seq<char>> {
    message_in(
        kept(settings_tasks(), seen, Task::AwaitConfiguration { file, success }, n),
        file,
        success,
    )
}

/// What is to be reported of settings and keys that are read again.
pub open spec fn settings_values(seen: Seq<Evidence>) -> SettingsReportView {
    let tasks = settings_tasks();
    SettingsReportView {
        initial: settings_in(kept(tasks, seen, Task::AwaitSettings(Expected::Initial), 0)),
        updated: settings_in(kept(tasks, seen, Task::AwaitSettings(Expected::Updated), 0)),
        retained_after_invalid: settings_in(
            kept(tasks, seen, Task::KeepSettings(Expected::Updated), 0),
        ),
        recovered: settings_in(kept(tasks, seen, Task::AwaitSettings(Expected::Recovered), 0)),
        format_on_save_disk: disk_in(kept(tasks, seen, Task::ReadFormatted, 0)),
        format_off_disk: disk_in(kept(tasks, seen, Task::ReadDisk, 0)),
        settings_invalid_error: told(seen, ConfigurationFile::ProjectSettings, false, 0),
        settings_recovery_status: told(seen, ConfigurationFile::ProjectSettings, true, 0),
        keymap_initial_status: told(seen, ConfigurationFile::Keymap, true, 0),
        keymap_invalid_error: told(seen, ConfigurationFile::Keymap, false, 0),
        keymap_replacement_status: told(seen, ConfigurationFile::Keymap, true, 1),
        multi_chord_rebind: kept(
            tasks,
            seen,
            Task::AwaitAction(Wanted::CommandPalette),
            0,
        ) is Some,
        unbind: kept(tasks, seen, Task::StayQuiet, 0) is Some && kept(
            tasks,
            seen,
            Task::StayQuiet,
            1,
        ) is Some,
        last_good_retained: kept(
            tasks,
            seen,
            Task::AwaitAction(Wanted::CommandPalette),
            1,
        ) is Some,
        replacement_rebind: kept(tasks, seen, Task::AwaitAction(Wanted::Hover), 0) is Some,
    }
}

fn hear(
    tasks: &Vec<Task>,
    seen: &Vec<Evidence>,
    file: ConfigurationFile,
    success: bool,
    n: usize,
) -> (message: Option<String>)
    requires
        tasks@ == settings_tasks(),
    ensures
        optional_text(message) == told(seen@, file, success, n as int),
{
    take_message(look(tasks, seen, Task::AwaitConfiguration { file, success }, n), file, success)
}

/// Reports settings and keys that were read again, from the evidence that was
/// kept.
pub fn settings_report(seen: &Vec<Evidence>) -> (report: SettingsReport)
    ensures
        report@ == settings_values(seen@),
{
    let tasks = settings_script();
    SettingsReport {
        initial: take_settings(look(&tasks, seen, Task::AwaitSettings(Expected::Initial), 0)),
        updated: take_settings(look(&tasks, seen, Task::AwaitSettings(Expected::Updated), 0)),
        retained_after_invalid: take_settings(
            look(&tasks, seen, Task::KeepSettings(Expected::Updated), 0),
        ),
        recovered: take_settings(look(&tasks, seen, Task::AwaitSettings(Expected::Recovered), 0)),
        format_on_save_disk: take_disk(look(&tasks, seen, Task::ReadFormatted, 0)),
        format_off_disk: take_disk(look(&tasks, seen, Task::ReadDisk, 0)),
        settings_invalid_error: hear(&tasks, seen, ConfigurationFile::ProjectSettings, false, 0),
        settings_recovery_status: hear(&tasks, seen, ConfigurationFile::ProjectSettings, true, 0),
        keymap_initial_status: hear(&tasks, seen, ConfigurationFile::Keymap, true, 0),
        keymap_invalid_error: hear(&tasks, seen, ConfigurationFile::Keymap, false, 0),
        keymap_replacement_status: hear(&tasks, seen, ConfigurationFile::Keymap, true, 1),
        multi_chord_rebind: look(
            &tasks,
            seen,
            Task::AwaitAction(Wanted::CommandPalette),
            0,
        ).is_some(),
        unbind: look(&tasks, seen, Task::StayQuiet, 0).is_some() && look(
            &tasks,
            seen,
            Task::StayQuiet,
            1,
        ).is_some(),
        last_good_retained: look(
            &tasks,
            seen,
            Task::AwaitAction(Wanted::CommandPalette),
            1,
        ).is_some(),
        replacement_rebind: look(&tasks, seen, Task::AwaitAction(Wanted::Hover), 0).is_some(),
    }
}

/// What is reported of an edit and its undo.
#[derive(Debug, PartialEq, Eq)]
pub struct EditReport {
    pub buffer_count: usize,
    pub undo_buffer_count: usize,
    pub after: String,
    pub after_undo: String,
}

/// The plain values of what is reported of an edit and its undo.
pub struct EditView {
    pub buffer_count: usize,
    pub undo_buffer_count: usize,
    pub after: Seq<char>,
    pub after_undo: Seq<char>,
}

impl View for EditReport {
    type V = EditView;

    open spec fn view(&self) -> EditView {
        EditView {
            buffer_count: self.buffer_count,
            undo_buffer_count: self.undo_buffer_count,
            after: self.after@,
            after_undo: self.after_undo@,
        }
    }
}

/// The plain values of an edit, if there is one.
pub open spec fn optional_edit(edit: Option<EditReport>) -> Option<EditView> {
    match edit {
        Some(edit) => Some(edit@),
        None => None,
    }
}

/// What was seen of an edit and its undo.
pub open spec fn edit_in(evidence: Option<Evidence>) -> Option<EditView> {
    match evidence {
        Some(Evidence::Undone { after, after_undo, changed, undone }) => Some(
            EditView {
                buffer_count: changed,
                undo_buffer_count: undone,
                after: after@,
                after_undo: after_undo@,
            },
        ),
        _ => None,
    }
}

fn take_edit(evidence: Option<&Evidence>) -> (edit: Option<EditReport>)
    ensures
        optional_edit(edit) == edit_in(owned(evidence)),
{
    match evidence {
        Some(Evidence::Undone { after, after_undo, changed, undone }) => Some(
            EditReport {
                buffer_count: *changed,
                undo_buffer_count: *undone,
                after: after.clone(),
                after_undo: after_undo.clone(),
            },
        ),
        _ => None,
    }
}

/// What is reported of references that are edited in one document.
#[derive(Debug, PartialEq, Eq)]
pub struct ReferencesReport {
    pub contains_main: bool,
    pub contains_peer: bool,
    /// The one source that the edit changed, and its text before the edit, after
    /// it, and after its undo.
    pub changed_path: Option<String>,
    pub source_before: Option<String>,
    pub source_after_edit: Option<String>,
    pub source_after_undo: Option<String>,
    pub disk_after_save: Option<String>,
    pub disk_after_restore: Option<String>,
}

/// The plain values of what is reported of references.
pub struct ReferencesView {
    pub contains_main: bool,
    pub contains_peer: bool,
    pub changed_path: Option<Seq<char>>,
    pub source_before: Option<Seq<char>>,
    pub source_after_edit: Option<Seq<char>>,
    pub source_after_undo: Option<Seq<char>>,
    pub disk_after_save: Option<Seq<char>>,
    pub disk_after_restore: Option<Seq<char>>,
}

impl View for ReferencesReport {
    type V = ReferencesView;

    open spec fn view(&self) -> ReferencesView {
        ReferencesView {
            contains_main: self.contains_main,
            contains_peer: self.contains_peer,
            changed_path: optional_text(self.changed_path),
            source_before: optional_text(self.source_before),
            source_after_edit: optional_text(self.source_after_edit),
            source_after_undo: optional_text(self.source_after_undo),
            disk_after_save: optional_text(self.disk_after_save),
            disk_after_restore: optional_text(self.disk_after_restore),
        }
    }
}

/// Whether a text that was seen holds a part.
pub open spec fn text_holds(evidence: Option<Evidence>, part: Seq<char>) -> bool {
    match evidence {
        Some(Evidence::Text(text)) => holds(text@, part),
        _ => false,
    }
}

fn find_in(evidence: Option<&Evidence>, part: &str) -> (found: bool)
    ensures
        found == text_holds(owned(evidence), part@),
{
    match evidence {
        Some(Evidence::Text(text)) => holds_text(text.as_str(), part),
        _ => false,
    }
}

/// The sources before and after that were seen; none where nobody looked.
pub open spec fn sources_in(evidence: Option<Evidence>) -> (Seq<SourceText>, Seq<SourceText>) {
    match evidence {
        Some(Evidence::Sources { before, after }) => (before@, after@),
        _ => (Seq::empty(), Seq::empty()),
    }
}

/// The first source that an edit changed.
pub open spec fn first_changed(evidence: Option<Evidence>) -> Option<Seq<char>> {
    let (before, after) = sources_in(evidence);
    if changed(before, after).len() == 0 {
        None
    } else {
        Some(changed(before, after)[0])
    }
}

/// The text under a path, if there is one.
pub open spec fn text_under(list: Seq<SourceText>, path: Option<Seq<char>>) -> Option<Seq<char>> {
    match path {
        Some(path) => text_at(list, path),
        None => None,
    }
}

fn take_first_changed(evidence: Option<&Evidence>) -> (path: Option<String>)
    ensures
        optional_text(path) == first_changed(owned(evidence)),
{
    match evidence {
        Some(Evidence::Sources { before, after }) => {
            let mut paths = changed_paths(before, after);
            assert(texts(paths@).len() == paths@.len());
            if paths.len() == 0 {
                return None;
            }
            assert(texts(paths@)[0] == paths@[0]@);
            Some(paths.remove(0))
        },
        _ => None,
    }
}

fn take_text_under(list: &Vec<SourceText>, path: &Option<String>) -> (text: Option<String>)
    ensures
        optional_text(text) == text_under(list@, optional_text(*path)),
{
    match path {
        Some(path) => match find_text(list, path.as_str()) {
            Some(text) => Some(text.to_string()),
            None => None,
        },
        None => None,
    }
}

fn take_source(evidence: Option<&Evidence>, path: &Option<String>, later: bool) -> (text: Option<
    String,
>)
    ensures
        optional_text(text) == text_under(
            if later {
                sources_in(owned(evidence)).1
            } else {
                sources_in(owned(evidence)).0
            },
            optional_text(*path),
        ),
{
    match evidence {
        Some(Evidence::Sources { before, after }) => if later {
            take_text_under(after, path)
        } else {
            take_text_under(before, path)
        },
        _ => None,
    }
}

/// What is to be reported of references.
pub open spec fn references_values(seen: Seq<Evidence>) -> ReferencesView {
    let tasks = language_tasks();
    let opened = kept(tasks, seen, Task::OpenReferences, 0);
    let inserted = kept(tasks, seen, Task::InsertMark, 0);
    let undone = kept(tasks, seen, Task::UndoMark, 0);
    let path = first_changed(inserted);
    ReferencesView {
        contains_main: text_holds(opened, "fn main"@),
        contains_peer: text_holds(opened, "fixture_peer"@),
        changed_path: path,
        source_before: text_under(sources_in(inserted).0, path),
        source_after_edit: text_under(sources_in(inserted).1, path),
        source_after_undo: text_under(sources_in(undone).1, path),
        disk_after_save: disk_in(kept(tasks, seen, Task::ReadDisk, 0)),
        disk_after_restore: disk_in(kept(tasks, seen, Task::ReadDisk, 1)),
    }
}

/// Reports references that were edited in one document.
pub fn references_report(seen: &Vec<Evidence>) -> (report: ReferencesReport)
    ensures
        report@ == references_values(seen@),
{
    let tasks = language_script();
    let opened = look(&tasks, seen, Task::OpenReferences, 0);
    let inserted = look(&tasks, seen, Task::InsertMark, 0);
    let undone = look(&tasks, seen, Task::UndoMark, 0);
    let changed_path = take_first_changed(inserted);
    let source_before = take_source(inserted, &changed_path, false);
    let source_after_edit = take_source(inserted, &changed_path, true);
    let source_after_undo = take_source(undone, &changed_path, true);
    ReferencesReport {
        contains_main: find_in(opened, "fn main"),
        contains_peer: find_in(opened, "fixture_peer"),
        changed_path,
        source_before,
        source_after_edit,
        source_after_undo,
        disk_after_save: take_disk(look(&tasks, seen, Task::ReadDisk, 0)),
        disk_after_restore: take_disk(look(&tasks, seen, Task::ReadDisk, 1)),
    }
}

/// What is reported of a rename.
#[derive(Debug, PartialEq, Eq)]
pub struct RenameReport {
    pub confirmation_signature_matches: bool,
    pub contains_main: bool,
    pub contains_peer: bool,
    pub contains_old_text: bool,
    pub contains_new_text: bool,
    pub rejected_contains_new_text: bool,
    pub rejection_unchanged: bool,
    pub buffer_count: usize,
    pub undo_buffer_count: usize,
    pub redo_buffer_count: usize,
    pub main_after: Option<String>,
    pub peer_after: Option<String>,
    pub main_after_undo: Option<String>,
    pub peer_after_undo: Option<String>,
    pub main_after_redo: Option<String>,
}

/// The plain values of what is reported of a rename.
pub struct RenameView {
    pub confirmation_signature_matches: bool,
    pub contains_main: bool,
    pub contains_peer: bool,
    pub contains_old_text: bool,
    pub contains_new_text: bool,
    pub rejected_contains_new_text: bool,
    pub rejection_unchanged: bool,
    pub buffer_count: usize,
    pub undo_buffer_count: usize,
    pub redo_buffer_count: usize,
    pub main_after: Option<Seq<char>>,
    pub peer_after: Option<Seq<char>>,
    pub main_after_undo: Option<Seq<char>>,
    pub peer_after_undo: Option<Seq<char>>,
    pub main_after_redo: Option<Seq<char>>,
}

impl View for RenameReport {
    type V = RenameView;

    open spec fn view(&self) -> RenameView {
        RenameView {
            confirmation_signature_matches: self.confirmation_signature_matches,
            contains_main: self.contains_main,
            contains_peer: self.contains_peer,
            contains_old_text: self.contains_old_text,
            contains_new_text: self.contains_new_text,
            rejected_contains_new_text: self.rejected_contains_new_text,
            rejection_unchanged: self.rejection_unchanged,
            buffer_count: self.buffer_count,
            undo_buffer_count: self.undo_buffer_count,
            redo_buffer_count: self.redo_buffer_count,
            main_after: optional_text(self.main_after),
            peer_after: optional_text(self.peer_after),
            main_after_undo: optional_text(self.main_after_undo),
            peer_after_undo: optional_text(self.peer_after_undo),
            main_after_redo: optional_text(self.main_after_redo),
        }
    }
}

/// A text under a path at one point of a rename: after it, after its undo, or
/// after its redo.
pub open spec fn renamed_text(evidence: Option<Evidence>, point: int, path: Seq<char>) -> Option<
    Seq<char>,
> {
    match evidence {
        Some(Evidence::Renamed { after, after_undo, after_redo, .. }) => text_at(
            if point == 0 {
                after@
            } else if point == 1 {
                after_undo@
            } else {
                after_redo@
            },
            path,
        ),
        _ => None,
    }
}

fn take_renamed_text(evidence: Option<&Evidence>, point: u8, path: &str) -> (text: Option<String>)
    ensures
        optional_text(text) == renamed_text(owned(evidence), point as int, path@),
{
    match evidence {
        Some(Evidence::Renamed { after, after_undo, after_redo, .. }) => {
            let list = if point == 0 {
                after
            } else if point == 1 {
                after_undo
            } else {
                after_redo
            };
            match find_text(list, path) {
                Some(text) => Some(text.to_string()),
                None => None,
            }
        },
        _ => None,
    }
}

/// What is to be reported of a rename, beside the paths of the document and of
/// its peer.
pub open spec fn rename_values(seen: Seq<Evidence>, main: Seq<char>, peer: Seq<char>) -> RenameView {
    let tasks = language_tasks();
    let rejected = kept(tasks, seen, Task::RejectRename, 0);
    let preview = kept(tasks, seen, Task::PreviewRename, 0);
    let renamed = kept(tasks, seen, Task::UndoRename, 0);
    RenameView {
        confirmation_signature_matches: match kept(tasks, seen, Task::ConfirmRename, 0) {
            Some(Evidence::Signatures { previewed, confirmed }) => previewed@ == confirmed@,
            _ => false,
        },
        contains_main: text_holds(preview, "src/main.rs"@),
        contains_peer: text_holds(preview, "src/lib.rs"@),
        contains_old_text: text_holds(preview, "stub_"@),
        contains_new_text: text_holds(preview, "renamed_fixture"@),
        rejected_contains_new_text: match rejected {
            Some(Evidence::Rejected { preview, .. }) => holds(preview@, "renamed_fixture"@),
            _ => false,
        },
        rejection_unchanged: match rejected {
            Some(Evidence::Rejected { before, after, .. }) => unchanged(before@, after@),
            _ => false,
        },
        buffer_count: match kept(tasks, seen, Task::PerformRename, 0) {
            Some(Evidence::Counts { changed, .. }) => changed,
            _ => 0,
        },
        undo_buffer_count: match renamed {
            Some(Evidence::Renamed { undone, .. }) => undone,
            _ => 0,
        },
        redo_buffer_count: match renamed {
            Some(Evidence::Renamed { redone, .. }) => redone,
            _ => 0,
        },
        main_after: renamed_text(renamed, 0, main),
        peer_after: renamed_text(renamed, 0, peer),
        main_after_undo: renamed_text(renamed, 1, main),
        peer_after_undo: renamed_text(renamed, 1, peer),
        main_after_redo: renamed_text(renamed, 2, main),
    }
}

/// Reports a rename, beside the paths of the document and of its peer.
pub fn rename_report(seen: &Vec<Evidence>, main: &str, peer: &str) -> (report: RenameReport)
    ensures
        report@ == rename_values(seen@, main@, peer@),
{
    let tasks = language_script();
    let preview = look(&tasks, seen, Task::PreviewRename, 0);
    let renamed = look(&tasks, seen, Task::UndoRename, 0);
    let (rejected_contains_new_text, rejection_unchanged) = match look(
        &tasks,
        seen,
        Task::RejectRename,
        0,
    ) {
        Some(Evidence::Rejected { preview, before, after }) => (
            holds_text(preview.as_str(), "renamed_fixture"),
            is_unchanged(before, after),
        ),
        _ => (false, false),
    };
    let (undone, redone): (usize, usize) = match renamed {
        Some(Evidence::Renamed { undone, redone, .. }) => (*undone, *redone),
        _ => (0, 0),
    };
    RenameReport {
        confirmation_signature_matches: match look(&tasks, seen, Task::ConfirmRename, 0) {
            Some(Evidence::Signatures { previewed, confirmed }) => same_text(
                previewed.as_str(),
                confirmed.as_str(),
            ),
            _ => false,
        },
        contains_main: find_in(preview, "src/main.rs"),
        contains_peer: find_in(preview, "src/lib.rs"),
        contains_old_text: find_in(preview, "stub_"),
        contains_new_text: find_in(preview, "renamed_fixture"),
        rejected_contains_new_text,
        rejection_unchanged,
        buffer_count: match look(&tasks, seen, Task::PerformRename, 0) {
            Some(Evidence::Counts { changed, .. }) => *changed,
            _ => 0,
        },
        undo_buffer_count: undone,
        redo_buffer_count: redone,
        main_after: take_renamed_text(renamed, 0, main),
        peer_after: take_renamed_text(renamed, 0, peer),
        main_after_undo: take_renamed_text(renamed, 1, main),
        peer_after_undo: take_renamed_text(renamed, 1, peer),
        main_after_redo: take_renamed_text(renamed, 2, main),
    }
}

/// What is reported of the language services.
#[derive(Debug, PartialEq, Eq)]
pub struct LanguageReport {
    pub errors: usize,
    pub warnings: usize,
    pub completion: Option<EditReport>,
    pub references: ReferencesReport,
    pub rename: RenameReport,
    pub code_action: Option<EditReport>,
    pub format_document: Option<EditReport>,
    pub format_range: Option<EditReport>,
}

/// The plain values of what is reported of the language services.
pub struct LanguageView {
    pub errors: usize,
    pub warnings: usize,
    pub completion: Option<EditView>,
    pub references: ReferencesView,
    pub rename: RenameView,
    pub code_action: Option<EditView>,
    pub format_document: Option<EditView>,
    pub format_range: Option<EditView>,
}

impl View for LanguageReport {
    type V = LanguageView;

    open spec fn view(&self) -> LanguageView {
        LanguageView {
            errors: self.errors,
            warnings: self.warnings,
            completion: optional_edit(self.completion),
            references: self.references@,
            rename: self.rename@,
            code_action: optional_edit(self.code_action),
            format_document: optional_edit(self.format_document),
            format_range: optional_edit(self.format_range),
        }
    }
}

/// What is to be reported of the language services, beside the paths of the
/// document and of its peer.
pub open spec fn language_values(
    seen: Seq<Evidence>,
    main: Seq<char>,
    peer: Seq<char>,
) -> LanguageView {
    let tasks = language_tasks();
    let (errors, warnings) = diagnostics_in(kept(tasks, seen, Task::AwaitDiagnostics, 0));
    LanguageView {
        errors,
        warnings,
        completion: edit_in(kept(tasks, seen, Task::UndoCompletion, 0)),
        references: references_values(seen),
        rename: rename_values(seen, main, peer),
        code_action: edit_in(kept(tasks, seen, Task::ApplyCodeAction, 0)),
        format_document: edit_in(kept(tasks, seen, Task::FormatDocument, 0)),
        format_range: edit_in(kept(tasks, seen, Task::FormatSelection, 0)),
    }
}

/// Reports the language services, from the evidence that was kept, beside the
/// paths of the document and of its peer.
pub fn language_report(seen: &Vec<Evidence>, main: &str, peer: &str) -> (report: LanguageReport)
    ensures
        report@ == language_values(seen@, main@, peer@),
{
    let tasks = language_script();
    let (errors, warnings) = take_diagnostics(look(&tasks, seen, Task::AwaitDiagnostics, 0));
    LanguageReport {
        errors,
        warnings,
        completion: take_edit(look(&tasks, seen, Task::UndoCompletion, 0)),
        references: references_report(seen),
        rename: rename_report(seen, main, peer),
        code_action: take_edit(look(&tasks, seen, Task::ApplyCodeAction, 0)),
        format_document: take_edit(look(&tasks, seen, Task::FormatDocument, 0)),
        format_range: take_edit(look(&tasks, seen, Task::FormatSelection, 0)),
    }
}

proof fn lemma_place(tasks: Seq<Task>, task: Task, n: int, from: int, index: int)
    requires
        0 <= from <= index < tasks.len(),
        tasks[index] == task,
        forall|i: int| from <= i < index ==> tasks[i] != task,
    ensures
        place(tasks, task, n, from) == if n <= 0 {
            Some(index)
        } else {
            place(tasks, task, n - 1, index + 1)
        },
    decreases index - from,
{
    if from < index {
        lemma_place(tasks, task, n, from + 1, index);
    }
}

/// The evidence for a task that stands at an index, and not before it.
proof fn lemma_kept(tasks: Seq<Task>, seen: Seq<Evidence>, task: Task, index: int)
    requires
        0 <= index < tasks.len(),
        seen.len() == tasks.len(),
        vouched(tasks, seen),
        tasks[index] == task,
        forall|i: int| 0 <= i < index ==> tasks[i] != task,
    ensures
        kept(tasks, seen, task, 0) == Some(seen[index]),
        suffices(task, seen[index]),
{
    lemma_place(tasks, task, 0, 0, index);
}

/// The evidence for a task that stands at two indices, and not before the
/// second one otherwise.
proof fn lemma_kept_again(
    tasks: Seq<Task>,
    seen: Seq<Evidence>,
    task: Task,
    first: int,
    second: int,
)
    requires
        0 <= first < second < tasks.len(),
        seen.len() == tasks.len(),
        vouched(tasks, seen),
        tasks[first] == task,
        tasks[second] == task,
        forall|i: int| 0 <= i < second && i != first ==> tasks[i] != task,
    ensures
        kept(tasks, seen, task, 0) == Some(seen[first]),
        kept(tasks, seen, task, 1) == Some(seen[second]),
        suffices(task, seen[first]),
        suffices(task, seen[second]),
{
    lemma_place(tasks, task, 0, 0, first);
    lemma_place(tasks, task, 1, 0, first);
    lemma_place(tasks, task, 0, first + 1, second);
}

/// Whether there is evidence on which a task can be done with.
pub open spec fn backed(tasks: Seq<Task>, seen: Seq<Evidence>, task: Task) -> bool {
    kept(tasks, seen, task, 0) matches Some(evidence) && suffices(task, evidence)
}

/// Only a failing formatter has the tasks of one.
proof fn lemma_scenarios_differ()
    ensures
        "restart-once"@ != "formatter-error"@,
{
    reveal_strlit("restart-once");
    reveal_strlit("formatter-error");
    assert("restart-once"@.len() != "formatter-error"@.len());
}

proof fn lemma_failure_kept(scenario: Seq<char>, seen: Seq<Evidence>)
    requires
        seen.len() == failure_tasks(scenario).len(),
        vouched(failure_tasks(scenario), seen),
    ensures
        backed(failure_tasks(scenario), seen, Task::EditAndBack),
        backed(failure_tasks(scenario), seen, Task::ReadEdited),
        backed(failure_tasks(scenario), seen, asking_task(scenario)),
        backed(failure_tasks(scenario), seen, Task::CloseEditor),
        scenario == "formatter-error"@ ==> backed(failure_tasks(scenario), seen, Task::FailToSave)
            && backed(failure_tasks(scenario), seen, Task::ReadAfterFailure),
{
    let tasks = failure_tasks(scenario);
    let formatter = scenario == "formatter-error"@;
    lemma_scenarios_differ();
    let last = tasks.len() - 1;
    let (edit, read, ask): (int, int, int) = if formatter {
        (3, 10, 11)
    } else if scenario == "restart-once"@ {
        (2, 4, 6)
    } else {
        (2, 4, 5)
    };
    assert(backed(tasks, seen, Task::EditAndBack)) by {
        lemma_kept(tasks, seen, Task::EditAndBack, edit);
    }
    assert(backed(tasks, seen, Task::ReadEdited)) by {
        lemma_kept(tasks, seen, Task::ReadEdited, read);
    }
    assert(backed(tasks, seen, asking_task(scenario))) by {
        lemma_kept(tasks, seen, asking_task(scenario), ask);
    }
    assert(backed(tasks, seen, Task::CloseEditor)) by {
        lemma_kept(tasks, seen, Task::CloseEditor, last);
    }
    if formatter {
        assert(backed(tasks, seen, Task::FailToSave)) by {
            lemma_kept(tasks, seen, Task::FailToSave, 5);
        }
        assert(backed(tasks, seen, Task::ReadAfterFailure)) by {
            lemma_kept(tasks, seen, Task::ReadAfterFailure, 6);
        }
    }
}

/// Where the probe of a failing server passed, it reports an edit that could be
/// undone and redone, a file that was saved, an editor that closed in time, and
/// an answer to its request; where the server was to recover, that it did; and
/// where a formatter was to fail a save, that nothing was lost.
pub proof fn passed_failures_report_a_usable_editor(scenario: Seq<char>, seen: Seq<Evidence>)
    requires
        seen.len() == failure_tasks(scenario).len(),
        vouched(failure_tasks(scenario), seen),
    ensures
        ({
            let report = failure_values(scenario, seen);
            &&& report.dirty_after_edit && report.undo_restored && report.redo_restored
            &&& report.saved
            &&& report.close_elapsed_ms matches Some(elapsed) && elapsed <= 250
            &&& report.request is Some
            &&& scenario == "restart-once"@ ==> report.request->0.outcome == "ok"@
                && report.request->0.completion_count == 2
            &&& scenario == "formatter-error"@ ==> report.formatter_error is Some
                && report.formatter_dirty == Some(true) && report.formatter_disk is Some
        }),
{
    lemma_failure_kept(scenario, seen);
    let tasks = failure_tasks(scenario);
    let report = failure_values(scenario, seen);
    assert(kept(tasks, seen, Task::EditAndBack, 0)->0 is Edited);
    assert(kept(tasks, seen, Task::ReadEdited, 0)->0 is Disk);
    assert(kept(tasks, seen, asking_task(scenario), 0)->0 is Answered);
    assert(kept(tasks, seen, Task::CloseEditor, 0)->0 is Closed);
    if scenario == "formatter-error"@ {
        assert(kept(tasks, seen, Task::FailToSave, 0)->0 is Failed);
        assert(kept(tasks, seen, Task::ReadAfterFailure, 0)->0 is Disk);
    }
}

/// Where the probe of the settings passed, it reports the settings that were to
/// be in effect, with the last good ones kept while the file was broken, what
/// was told of each file, and every key as it was to be bound.
pub proof fn passed_settings_are_reported(seen: Seq<Evidence>)
    requires
        seen.len() == settings_tasks().len(),
        vouched(settings_tasks(), seen),
    ensures
        ({
            let report = settings_values(seen);
            &&& report.initial == Some(Expected::Initial.values())
            &&& report.updated == Some(Expected::Updated.values())
            &&& report.retained_after_invalid == Some(Expected::Updated.values())
            &&& report.recovered == Some(Expected::Recovered.values())
            &&& report.format_on_save_disk == Some("fn main() { let value = 1; }\n"@)
            &&& report.format_off_disk is Some
            &&& report.settings_invalid_error is Some && report.settings_recovery_status is Some
            &&& report.keymap_initial_status is Some && report.keymap_invalid_error is Some
            &&& report.keymap_replacement_status is Some
            &&& report.multi_chord_rebind && report.unbind && report.last_good_retained
            &&& report.replacement_rebind
        }),
{
    let tasks = settings_tasks();
    let keymap = ConfigurationFile::Keymap;
    let settings = ConfigurationFile::ProjectSettings;
    lemma_kept(tasks, seen, Task::AwaitSettings(Expected::Initial), 2);
    lemma_kept(tasks, seen, Task::AwaitSettings(Expected::Updated), 18);
    lemma_kept(tasks, seen, Task::KeepSettings(Expected::Updated), 25);
    lemma_kept(tasks, seen, Task::AwaitSettings(Expected::Recovered), 27);
    lemma_kept(tasks, seen, Task::ReadFormatted, 22);
    lemma_kept(tasks, seen, Task::ReadDisk, 31);
    lemma_kept(tasks, seen, Task::AwaitConfiguration { file: settings, success: false }, 24);
    lemma_kept(tasks, seen, Task::AwaitConfiguration { file: settings, success: true }, 28);
    lemma_kept(tasks, seen, Task::AwaitConfiguration { file: keymap, success: false }, 8);
    lemma_kept_again(
        tasks,
        seen,
        Task::AwaitConfiguration { file: keymap, success: true },
        1,
        12,
    );
    lemma_kept_again(tasks, seen, Task::AwaitAction(Wanted::CommandPalette), 4, 10);
    lemma_kept_again(tasks, seen, Task::StayQuiet, 6, 16);
    lemma_kept(tasks, seen, Task::AwaitAction(Wanted::Hover), 14);
}

/// Where the probe of the language services passed, it reports diagnostics, one
/// source that an edit of references changed, a rename that was previewed as it
/// was made and left everything alone when it was rejected, and every edit with
/// its undo.
pub proof fn passed_services_are_reported(seen: Seq<Evidence>, main: Seq<char>, peer: Seq<char>)
    requires
        seen.len() == language_tasks().len(),
        vouched(language_tasks(), seen),
    ensures
        ({
            let report = language_values(seen, main, peer);
            &&& report.errors > 0 || report.warnings > 0
            &&& report.references.changed_path is Some
            &&& report.references.disk_after_save is Some
            &&& report.references.disk_after_restore is Some
            &&& report.rename.confirmation_signature_matches
            &&& report.rename.rejection_unchanged
            &&& report.completion is Some && report.code_action is Some
            &&& report.format_document is Some && report.format_range is Some
        }),
{
    let tasks = language_tasks();
    lemma_kept(tasks, seen, Task::AwaitDiagnostics, 4);
    lemma_kept(tasks, seen, Task::UndoCompletion, 11);
    lemma_kept(tasks, seen, Task::InsertMark, 26);
    lemma_kept_again(tasks, seen, Task::ReadDisk, 28, 31);
    lemma_kept(tasks, seen, Task::RejectRename, 36);
    lemma_kept(tasks, seen, Task::ConfirmRename, 38);
    lemma_kept(tasks, seen, Task::ApplyCodeAction, 45);
    lemma_kept(tasks, seen, Task::FormatDocument, 47);
    lemma_kept(tasks, seen, Task::FormatSelection, 49);
}

} // verus!
