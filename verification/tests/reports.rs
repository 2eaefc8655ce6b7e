use zec::probe::report::{failure_report, language_report, settings_report, EditReport};
use zec::probe::script::{
    failure_script, judge, language_script, settings_script, AnswerEvent, ConfigurationFile, Evidence, Expected,
    KeymapText, Outcome, Script, SettingsText, Step, Task,
};
use zec::probe::{ActionEvent, ConfigurationEvent, RequestEnd, RequestReport, ServerStatus, SourceText};

fn sources(main: &str, peer: &str) -> Vec<SourceText> {
    let source = |path: &str, text: &str| SourceText { path: path.to_owned(), text: text.to_owned() };
    vec![source("/r/src/main.rs", main), source("/r/src/lib.rs", peer)]
}

fn disk(dirty: bool, text: &str) -> Evidence {
    Evidence::Disk { dirty, disk: text.to_owned(), expected: text.to_owned() }
}

fn undone(after: &str, changed: usize) -> Evidence {
    Evidence::Undone { after: after.to_owned(), after_undo: "stub_".to_owned(), changed, undone: changed }
}

/// What comes of a task when all goes well.
fn good(task: Task) -> Evidence {
    match task {
        Task::OpenFixture => Evidence::Opened { text: "a".to_owned(), disk: "a".to_owned() },
        Task::OpenMarked => Evidence::Opened { text: "stub_".to_owned(), disk: "stub_".to_owned() },
        Task::AwaitServer { .. } => {
            Evidence::Servers(vec![ServerStatus { name: "rust-analyzer".to_owned(), has_process: true }])
        }
        Task::Register | Task::Recover | Task::AskForCompletions { .. } | Task::CollectCompletions => {
            Evidence::Answered(RequestEnd::Completed(vec![Some("doc".to_owned()), None]))
        }
        Task::EditAndBack => Evidence::Edited {
            dirty: true,
            original: "a".to_owned(),
            edited: "b".to_owned(),
            after_undo: "a".to_owned(),
            after_redo: "b".to_owned(),
        },
        Task::AwaitSettings(expected) | Task::KeepSettings(expected) => Evidence::Settings(expected.settings()),
        Task::AwaitFormatterOff => Evidence::Settings(Expected::Initial.settings()),
        Task::FailToSave => Evidence::Failed("formatter broke".to_owned()),
        Task::ReadAfterFailure => disk(true, "a"),
        Task::ReadEdited => disk(false, "b"),
        Task::ReadFormatted => disk(false, "fn main() { let value = 1; }\n"),
        Task::ReadDisk => disk(false, "on disk"),
        Task::ReadDiagnostics | Task::AwaitDiagnostics => Evidence::Diagnostics { errors: 2, warnings: 1 },
        Task::AwaitManyDiagnostics => Evidence::Diagnostics { errors: 6_000, warnings: 5_000 },
        Task::CollectDiagnostics => Evidence::Items(10_000),
        Task::CloseEditor => Evidence::Closed { elapsed_ms: 40 },
        Task::AwaitConfiguration { file, success } => Evidence::Configuration(ConfigurationEvent::Reloaded {
            kind: file.name().to_owned(),
            result: if success { Ok(format!("{} loaded", file.name())) } else { Err(format!("{} broken", file.name())) },
        }),
        Task::AwaitAction(wanted) => Evidence::Action(ActionEvent::Action(wanted.name().to_owned())),
        Task::StayQuiet => Evidence::Action(ActionEvent::Other),
        Task::AwaitAnswer(request) => Evidence::Answer {
            buffer: 1,
            generation: 0,
            event: AnswerEvent::Finished { request, buffer: 1, generation: request.generation(), success: true },
        },
        Task::AwaitMenu => Evidence::Visible(true),
        Task::ConfirmCompletion | Task::ListDiagnostics | Task::GoToDefinition => Evidence::Items(1),
        Task::OpenReferences => Evidence::Text("fn main() { stub_ }".to_owned()),
        Task::InsertMark => {
            Evidence::Sources { before: sources("stub_", "peer"), after: sources("mb_stub_", "peer") }
        }
        Task::UndoMark => Evidence::Sources { before: sources("stub_", "peer"), after: sources("stub_", "peer") },
        Task::RejectRename => Evidence::Rejected {
            preview: "renamed_fixture".to_owned(),
            before: sources("stub_", "peer"),
            after: sources("stub_", "peer"),
        },
        Task::PreviewRename => Evidence::Text("src/main.rs: stub_ -> renamed_fixture".to_owned()),
        Task::ConfirmRename => Evidence::Signatures { previewed: "s".to_owned(), confirmed: "s".to_owned() },
        Task::PerformRename => Evidence::Counts { changed: 2, recorded: 2 },
        Task::UndoRename => Evidence::Renamed {
            after: sources("renamed_fixture", "peer 2"),
            after_undo: sources("stub_", "peer"),
            after_redo: sources("renamed_fixture", "peer 2"),
            undone: 2,
            redone: 1,
        },
        Task::UndoCompletion => undone("stub_completed", 1),
        Task::ApplyCodeAction => undone("stub_fixed", 1),
        Task::FormatDocument => undone("stub_ formatted", 3),
        Task::FormatSelection => undone("stub_ in range", 0),
        _ => Evidence::Done,
    }
}

/// Runs a script to its end; a task that is to stay quiet has its time.
fn run(tasks: Vec<Task>, answer: impl Fn(Task) -> Evidence) -> Vec<Evidence> {
    let total = tasks.len();
    let mut script = Script::start(tasks, 0);
    let mut seen = Vec::new();
    let mut now = 0;
    while let Some(task) = script.task() {
        now += 100;
        let step = script.advance(answer(task), now, &mut seen);
        assert!(!matches!(step, Step::Failed { .. }), "{step:?}");
    }
    assert_eq!(seen.len(), total);
    seen
}

#[test]
fn settings_that_were_read_again_are_reported() {
    let report = settings_report(&run(settings_script(), good));
    assert_eq!(report.initial, Some(Expected::Initial.settings()));
    assert_eq!(report.updated, Some(Expected::Updated.settings()));
    assert_eq!(report.retained_after_invalid, Some(Expected::Updated.settings()));
    assert_eq!(report.recovered, Some(Expected::Recovered.settings()));
    assert_eq!(report.format_on_save_disk.as_deref(), Some("fn main() { let value = 1; }\n"));
    assert_eq!(report.format_off_disk.as_deref(), Some("on disk"));
    assert_eq!(report.settings_invalid_error.as_deref(), Some("project settings broken"));
    assert_eq!(report.settings_recovery_status.as_deref(), Some("project settings loaded"));
    assert_eq!(report.keymap_initial_status.as_deref(), Some("user keymap loaded"));
    assert_eq!(report.keymap_invalid_error.as_deref(), Some("user keymap broken"));
    assert_eq!(report.keymap_replacement_status.as_deref(), Some("user keymap loaded"));
    assert!(report.multi_chord_rebind && report.unbind && report.last_good_retained && report.replacement_rebind);

    let empty = settings_report(&Vec::new());
    assert_eq!((empty.initial, empty.format_off_disk), (None, None));
    assert!(!empty.multi_chord_rebind && !empty.unbind && !empty.last_good_retained && !empty.replacement_rebind);
}

#[test]
fn the_second_reading_of_a_file_is_told_from_the_first() {
    let mut seen = run(settings_script(), good);
    seen[12] = Evidence::Configuration(ConfigurationEvent::Reloaded {
        kind: ConfigurationFile::Keymap.name().to_owned(),
        result: Ok("replaced".to_owned()),
    });
    let report = settings_report(&seen);
    assert_eq!(report.keymap_initial_status.as_deref(), Some("user keymap loaded"));
    assert_eq!(report.keymap_replacement_status.as_deref(), Some("replaced"));
    seen.truncate(10);
    let report = settings_report(&seen);
    assert!(report.multi_chord_rebind && !report.last_good_retained && !report.unbind);
    assert_eq!(report.keymap_replacement_status, None);
}

#[test]
fn failing_servers_are_reported() {
    let report = failure_report("formatter-error", &run(failure_script("formatter-error"), good));
    assert!(report.initially_ready && !report.tells_user && !report.restart_requested);
    assert_eq!(
        report.request,
        Some(RequestReport { outcome: "ok".to_owned(), completion_count: 2, max_documentation_bytes: 3 })
    );
    assert_eq!((report.errors, report.warnings, report.item_count), (2, 1, 3));
    assert!(report.dirty_after_edit && report.undo_restored && report.redo_restored && report.saved);
    assert_eq!(report.close_elapsed_ms, Some(40));
    assert_eq!(report.formatter_error.as_deref(), Some("formatter broke"));
    assert_eq!((report.formatter_dirty, report.formatter_disk.as_deref()), (Some(true), Some("a")));

    let report = failure_report("large-payloads", &run(failure_script("large-payloads"), good));
    assert_eq!((report.errors, report.warnings, report.item_count), (6_000, 5_000, 10_000));
    assert_eq!((report.formatter_error, report.formatter_dirty, report.formatter_disk), (None, None, None));

    let report = failure_report("restart-once", &run(failure_script("restart-once"), good));
    assert!(report.restart_requested);
    assert_eq!(report.request.map(|request| request.completion_count), Some(2));

    let down = |task: Task| match task {
        Task::AwaitServer { .. } => Evidence::Servers(Vec::new()),
        Task::AskForCompletions { timeout } => {
            assert_eq!(timeout, 250);
            Evidence::Answered(RequestEnd::TimedOut)
        }
        _ => good(task),
    };
    let report = failure_report("hang-start", &run(failure_script("hang-start"), down));
    assert!(!report.initially_ready && report.tells_user);
    assert_eq!(report.request.map(|request| request.outcome), Some("cancelled".to_owned()));
}

#[test]
fn language_services_are_reported() {
    let seen = run(language_script(), good);
    let report = language_report(&seen, "/r/src/main.rs", "/r/src/lib.rs");
    let edit = |buffer_count: usize, after: &str| {
        Some(EditReport {
            buffer_count,
            undo_buffer_count: buffer_count,
            after: after.to_owned(),
            after_undo: "stub_".to_owned(),
        })
    };
    assert_eq!((report.errors, report.warnings), (2, 1));
    assert_eq!(report.completion, edit(1, "stub_completed"));
    assert_eq!(report.code_action, edit(1, "stub_fixed"));
    assert_eq!(report.format_document, edit(3, "stub_ formatted"));
    assert_eq!(report.format_range, edit(0, "stub_ in range"));
    let references = report.references;
    assert!(references.contains_main && !references.contains_peer);
    assert_eq!(references.changed_path.as_deref(), Some("/r/src/main.rs"));
    assert_eq!(references.source_before.as_deref(), Some("stub_"));
    assert_eq!(references.source_after_edit.as_deref(), Some("mb_stub_"));
    assert_eq!(references.source_after_undo.as_deref(), Some("stub_"));
    assert_eq!(references.disk_after_save.as_deref(), Some("on disk"));
    assert_eq!(references.disk_after_restore.as_deref(), Some("on disk"));
    let rename = report.rename;
    assert!(rename.confirmation_signature_matches && rename.rejection_unchanged);
    assert!(rename.contains_main && !rename.contains_peer && rename.contains_old_text && rename.contains_new_text);
    assert!(rename.rejected_contains_new_text);
    assert_eq!((rename.buffer_count, rename.undo_buffer_count, rename.redo_buffer_count), (2, 2, 1));
    assert_eq!(rename.main_after.as_deref(), Some("renamed_fixture"));
    assert_eq!(rename.peer_after.as_deref(), Some("peer 2"));
    assert_eq!(rename.main_after_undo.as_deref(), Some("stub_"));
    assert_eq!(rename.peer_after_undo.as_deref(), Some("peer"));
    assert_eq!(rename.main_after_redo.as_deref(), Some("renamed_fixture"));
    assert_eq!(language_report(&seen, "/r/src/main.rs", "/r/none").rename.peer_after, None);
}

#[test]
fn evidence_is_kept_once_a_task_is_done_with() {
    let mut script = Script::start(settings_script(), 0);
    let mut seen = Vec::new();
    script.advance(Evidence::Done, 0, &mut seen);
    let quiet = || Evidence::Configuration(ConfigurationEvent::Other);
    assert!(matches!(script.advance(quiet(), 10, &mut seen), Step::Perform { .. }));
    assert_eq!(seen.len(), 1);
    assert!(matches!(script.advance(quiet(), 5_000, &mut seen), Step::Failed { late: true, .. }));
    assert_eq!(seen.len(), 1);
    assert_eq!(script.advance(Evidence::Done, 5_000, &mut seen), Step::Over);
    assert_eq!(seen.len(), 1);
}

#[test]
fn edits_are_seen_with_their_undo() {
    assert_eq!(judge(Task::FormatDocument, &Evidence::Done), Outcome::Wrong);
    assert_eq!(judge(Task::FormatDocument, &undone("x", 1)), Outcome::Met);
    assert_eq!(judge(Task::Save, &undone("x", 1)), Outcome::Wrong);
    assert_eq!(judge(Task::PreviewRename, &Evidence::Text(String::new())), Outcome::Met);
    assert_eq!(judge(Task::OpenReferences, &Evidence::Text(String::new())), Outcome::Wrong);
    assert_eq!(judge(Task::CollectDiagnostics, &Evidence::Items(0)), Outcome::Met);
    assert_eq!(judge(Task::ListDiagnostics, &Evidence::Items(0)), Outcome::Wrong);
    assert_eq!(judge(Task::UndoRename, &Evidence::Done), Outcome::Wrong);
    let rejected = |after: &str| Evidence::Rejected {
        preview: String::new(),
        before: sources("a", "b"),
        after: sources("a", after),
    };
    assert_eq!(judge(Task::RejectRename, &rejected("b")), Outcome::Met);
    assert_eq!(judge(Task::RejectRename, &rejected("c")), Outcome::Wrong);
}

#[test]
fn probes_write_these_very_bytes() {
    assert_eq!(
        KeymapText::Replacement.text(),
        r#"[
          {
            "context": "Editor",
            "bindings": {
              "f1": null,
              "f3": "editor::Hover"
            }
          }
        ]"#
    );
    assert_eq!(
        SettingsText::Recovered.text(),
        r#"{
          "tab_size": 8,
          "languages": {
            "Rust": {
              "tab_size": 9,
              "format_on_save": "off",
              "completions": { "lsp": true },
              "show_completions_on_input": true
            }
          }
        }"#
    );
    assert_eq!(
        SettingsText::FormatterOff.text(),
        r#"{
              "format_on_save": "off",
              "remove_trailing_whitespace_on_save": false,
              "ensure_final_newline_on_save": false
            }"#
    );
}
