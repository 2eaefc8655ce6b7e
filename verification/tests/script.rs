use zec::probe::script::{
    failure_script, judge, language_script, pace, request_limit, settings_script, AnswerEvent, ConfigurationFile, Evidence,
    Expected, KeymapText, Keys, Outcome, Request, Script, SettingsText, Step, Task, Typing, Wanted,
};
use zec::probe::{ActionEvent, ConfigurationEvent, LocationRequestKind, RequestEnd, ServerStatus, SourceText};

fn servers(ready: bool) -> Evidence {
    Evidence::Servers(vec![ServerStatus { name: "rust-analyzer".to_owned(), has_process: ready }])
}

fn opened() -> Evidence {
    Evidence::Opened { text: "a".to_owned(), disk: "a".to_owned() }
}

fn edited() -> Evidence {
    Evidence::Edited {
        dirty: true,
        original: "a".to_owned(),
        edited: "b".to_owned(),
        after_undo: "a".to_owned(),
        after_redo: "b".to_owned(),
    }
}

fn disk(dirty: bool, disk: &str, expected: &str) -> Evidence {
    Evidence::Disk { dirty, disk: disk.to_owned(), expected: expected.to_owned() }
}

fn performs(step: Step) -> Task {
    match step {
        Step::Perform { task, .. } => task,
        other => panic!("expected a task, not {other:?}"),
    }
}

#[test]
fn a_failing_server_does_not_stop_the_editor() {
    let mut script = Script::start(failure_script("crash-start"), 1_000);
    assert_eq!(script.task(), Some(Task::OpenFixture));
    assert_eq!(
        performs(script.next(&opened(), 1_000)),
        Task::AwaitServer { patience: 500, pause: 10, lenient: true }
    );
    assert!(matches!(script.next(&servers(false), 1_400), Step::Perform { after: 10, .. }));
    assert_eq!(performs(script.next(&servers(false), 1_500)), Task::EditAndBack);
    assert_eq!(performs(script.next(&edited(), 1_500)), Task::Save);
    assert_eq!(performs(script.next(&Evidence::Done, 1_500)), Task::ReadEdited);
    assert_eq!(
        performs(script.next(&disk(false, "b", "b"), 1_500)),
        Task::AskForCompletions { timeout: 3_000 }
    );
    assert_eq!(performs(script.next(&Evidence::Answered(RequestEnd::TimedOut), 1_600)), Task::ReadDiagnostics);
    assert_eq!(
        performs(script.next(&Evidence::Diagnostics { errors: 0, warnings: 0 }, 1_600)),
        Task::CloseEditor
    );
    assert_eq!(script.next(&Evidence::Closed { elapsed_ms: 250 }, 1_600), Step::Finished);
    assert_eq!(script.next(&Evidence::Done, 1_600), Step::Over);
    assert_eq!(script.task(), None);
}

#[test]
fn tasks_that_come_out_wrong_end_a_probe() {
    let mut script = Script::start(failure_script("x"), 0);
    script.next(&opened(), 0);
    script.next(&servers(true), 0);
    let spoiled = Evidence::Edited {
        dirty: true,
        original: "a".to_owned(),
        edited: "b".to_owned(),
        after_undo: "b".to_owned(),
        after_redo: "b".to_owned(),
    };
    assert_eq!(script.next(&spoiled, 0), Step::Failed { task: Task::EditAndBack, late: false });
    assert_eq!(script.next(&edited(), 0), Step::Over);

    let mut script = Script::start(settings_script(), 0);
    script.next(&Evidence::Done, 0);
    let task = Task::AwaitConfiguration { file: ConfigurationFile::Keymap, success: true };
    assert_eq!(script.task(), Some(task));
    let quiet = || Evidence::Configuration(ConfigurationEvent::Other);
    assert_eq!(script.next(&quiet(), 4_999), Step::Perform { task, after: 10 });
    assert_eq!(script.next(&quiet(), 5_000), Step::Failed { task, late: true });
}

#[test]
fn a_formatter_that_fails_is_switched_off() {
    let tasks = failure_script("formatter-error");
    assert_eq!(
        tasks,
        vec![
            Task::OpenFixture,
            Task::AwaitServer { patience: 10_000, pause: 10, lenient: true },
            Task::Register,
            Task::EditAndBack,
            Task::AwaitSettings(Expected::Formatting),
            Task::FailToSave,
            Task::ReadAfterFailure,
            Task::WriteSettings(SettingsText::FormatterOff),
            Task::AwaitFormatterOff,
            Task::Save,
            Task::ReadEdited,
            Task::AskForCompletions { timeout: 3_000 },
            Task::ReadDiagnostics,
            Task::CloseEditor,
        ]
    );
    assert!(failure_script("restart-once").contains(&Task::Recover));
    assert!(failure_script("large-payloads").contains(&Task::AwaitManyDiagnostics));
    assert_eq!(judge(Task::FailToSave, &Evidence::Failed("no".to_owned())), Outcome::Met);
    assert_eq!(judge(Task::FailToSave, &Evidence::Done), Outcome::Wrong);
    assert_eq!(judge(Task::ReadAfterFailure, &disk(true, "a", "a")), Outcome::Met);
    assert_eq!(judge(Task::ReadAfterFailure, &disk(false, "a", "a")), Outcome::Wrong);
}

#[test]
fn quiet_is_kept_for_a_while() {
    let mut script = Script::start(vec![Task::StayQuiet, Task::Rest], 0);
    let nothing = || Evidence::Action(ActionEvent::Other);
    assert_eq!(script.next(&nothing(), 74), Step::Perform { task: Task::StayQuiet, after: 5 });
    assert_eq!(script.next(&nothing(), 75), Step::Perform { task: Task::Rest, after: 25 });
    let mut script = Script::start(vec![Task::StayQuiet], 0);
    let action = Evidence::Action(ActionEvent::Action("Hover".to_owned()));
    assert_eq!(script.next(&action, 0), Step::Failed { task: Task::StayQuiet, late: false });
    assert_eq!(judge(Task::AwaitAction(Wanted::Hover), &action), Outcome::Met);
    assert_eq!(judge(Task::AwaitAction(Wanted::CommandPalette), &action), Outcome::Wrong);
}

#[test]
fn answers_are_those_of_the_request() {
    let answer = |request: Request, buffer: u64, generation: u64, success: bool| Evidence::Answer {
        buffer: 7,
        generation: 3,
        event: AnswerEvent::Finished { request, buffer, generation, success },
    };
    let hover = Task::AwaitAnswer(Request::Hover);
    assert_eq!(judge(hover, &answer(Request::Hover, 7, 1, true)), Outcome::Met);
    assert_eq!(judge(hover, &answer(Request::Hover, 7, 1, false)), Outcome::Wrong);
    assert_eq!(judge(hover, &answer(Request::Hover, 8, 1, true)), Outcome::Open);
    assert_eq!(judge(hover, &answer(Request::Hover, 7, 2, true)), Outcome::Open);
    assert_eq!(judge(hover, &answer(Request::Rename, 7, 1, true)), Outcome::Open);
    let completions = Task::AwaitAnswer(Request::Completions);
    assert_eq!(judge(completions, &answer(Request::Completions, 8, 3, true)), Outcome::Met);
    assert_eq!(Request::Locations(LocationRequestKind::ProjectSymbols).generation(), 20);
}

#[test]
fn edits_of_references_touch_one_source() {
    let sources = |texts: &[&str]| -> Vec<SourceText> {
        let named = texts.iter().enumerate();
        named.map(|(index, text)| SourceText { path: index.to_string(), text: text.to_string() }).collect()
    };
    let seen = |before: &[&str], after: &[&str]| Evidence::Sources { before: sources(before), after: sources(after) };
    assert_eq!(judge(Task::InsertMark, &seen(&["a", "b"], &["a", "c"])), Outcome::Met);
    assert_eq!(judge(Task::InsertMark, &seen(&["a", "b"], &["c", "c"])), Outcome::Wrong);
    assert_eq!(judge(Task::UndoMark, &seen(&["a", "b"], &["a", "b"])), Outcome::Met);
    assert_eq!(judge(Task::UndoMark, &seen(&["a", "b"], &["a"])), Outcome::Wrong);
}

#[test]
fn every_request_of_the_language_probe_is_answered() {
    let tasks = language_script();
    for (index, task) in tasks.iter().enumerate() {
        if let Task::Start(request) = task {
            assert_eq!(tasks[index + 1], Task::AwaitAnswer(*request));
        }
    }
    assert_eq!(tasks.len(), 52);
    assert!(!pace(Task::AwaitMenu).own_time);
    assert_eq!(pace(Task::Recover).patience, 15_000);
}

#[test]
fn files_of_the_configuration_are_well_formed_or_broken() {
    let parses = |text: &str| serde_json::from_str::<serde_json::Value>(text).is_ok();
    assert!(parses(KeymapText::Replacement.text()));
    assert!(!parses(KeymapText::Broken.text()));
    assert!(parses(SettingsText::Updated.text()));
    assert!(parses(SettingsText::Recovered.text()));
    assert!(parses(SettingsText::FormatterOff.text()));
    assert!(!parses(SettingsText::Broken.text()));
    assert_eq!(Keys::Palette.strokes(), vec!["ctrl-k", "ctrl-p"]);
    assert_eq!(Typing::Second.text(), "fn main() { let value = 2; }   \n");
    assert_eq!(Expected::Updated.settings().tab_size, 7);
}

#[test]
fn the_language_probe_needs_completions() {
    let answered = |end: RequestEnd| Evidence::Answered(end);
    assert_eq!(language_script()[2], Task::CollectCompletions);
    assert_eq!(judge(Task::CollectCompletions, &answered(RequestEnd::Completed(vec![]))), Outcome::Met);
    assert_eq!(judge(Task::CollectCompletions, &answered(RequestEnd::Failed("x".to_owned()))), Outcome::Wrong);
    assert_eq!(judge(Task::CollectCompletions, &answered(RequestEnd::TimedOut)), Outcome::Wrong);
    let lenient = Task::AskForCompletions { timeout: 3_000 };
    assert_eq!(judge(lenient, &answered(RequestEnd::Failed("x".to_owned()))), Outcome::Met);
    assert_eq!(judge(lenient, &answered(RequestEnd::TimedOut)), Outcome::Met);
}

#[test]
fn one_request_has_its_own_limit() {
    assert_eq!(request_limit(Task::Register), Some(1_000));
    assert_eq!(request_limit(Task::Recover), Some(2_000));
    assert_eq!(request_limit(Task::AskForCompletions { timeout: 750 }), Some(750));
    assert_eq!(request_limit(Task::CollectCompletions), None);
    assert_eq!(request_limit(Task::Save), None);
}
