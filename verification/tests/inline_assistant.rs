use zec::geometry::Point;
use zec::inline_assistant::{
    bounded_line, is_delete_instruction, response_chunks, rewrite_rows, start_completion, strip_markdown_fence,
    undo_outcome, Finish, GenerationAction, GenerationEvent, InlineAssistError, InlineAssistInput, InlineAssistPhase, InlineAssistTarget, ModelChoice,
    InlineAssistantState,
};
use zec::input::{KeyCode, KeyEvent, KeyModifiers};

fn press(code: KeyCode) -> KeyEvent {
    KeyEvent::new(code, KeyModifiers::none())
}

fn target() -> InlineAssistTarget {
    InlineAssistTarget {
        read_only: false,
        sources: 1,
        present: true,
        writable: true,
    }
}

fn state(original: &str) -> InlineAssistantState {
    InlineAssistantState::capture(target(), original.to_owned()).unwrap()
}

#[test]
fn strips_only_complete_markdown_fences() {
    assert_eq!(
        strip_markdown_fence("```rust\nfn main() {}\n```".to_owned()),
        "fn main() {}"
    );
    assert_eq!(strip_markdown_fence("plain".to_owned()), "plain");
}

#[test]
fn unclosed_fences_stay() {
    assert_eq!(strip_markdown_fence("```rust\nfn main() {}".to_owned()), "```rust\nfn main() {}");
    assert_eq!(strip_markdown_fence("```".to_owned()), "```");
}

#[test]
fn rewrites_whole_rows() {
    assert_eq!(rewrite_rows(Point::new(2, 4), Point::new(5, 0)), (2, 4));
    assert_eq!(rewrite_rows(Point::new(2, 4), Point::new(5, 1)), (2, 5));
    assert_eq!(rewrite_rows(Point::new(2, 0), Point::new(2, 0)), (2, 2));
}

#[test]
fn places_that_cannot_be_rewritten_are_refused() {
    let refused = |target: InlineAssistTarget| InlineAssistantState::capture(target, String::new()).err();
    assert_eq!(
        refused(InlineAssistTarget { read_only: true, ..target() }),
        Some(InlineAssistError::EditorIsReadOnly)
    );
    assert_eq!(
        refused(InlineAssistTarget { sources: 0, ..target() }),
        Some(InlineAssistError::OutsideASource)
    );
    assert_eq!(
        refused(InlineAssistTarget { sources: 2, ..target() }),
        Some(InlineAssistError::ManySources)
    );
    assert_eq!(
        refused(InlineAssistTarget { present: false, ..target() }),
        Some(InlineAssistError::SourceIsGone)
    );
    assert_eq!(
        refused(InlineAssistTarget { writable: false, ..target() }),
        Some(InlineAssistError::SourceIsReadOnly)
    );
    assert_eq!(InlineAssistError::SourceIsReadOnly.message(), "the inline-assistant source buffer is read-only");
}

#[test]
fn a_rewrite_is_generated_previewed_and_rejected() {
    let mut state = state("old\n");
    assert_eq!(state.handle_key(&press(KeyCode::Enter)), InlineAssistInput::Consumed);
    state.handle_paste("make it new");
    assert_eq!(state.handle_key(&press(KeyCode::Enter)), InlineAssistInput::Start);
    let (generation, instruction) = state.begin_generation();
    assert_eq!((generation, instruction.as_str()), (1, "make it new"));
    state.set_generation_task("model".to_owned());
    assert!(state.is_running());
    assert!(state.append_chunk(1, "new"));
    assert!(!state.append_chunk(0, "late"));
    assert!(matches!(state.finish(0, Ok("late".to_owned())), Finish::Stale));
    let replacement = match state.finish(1, Ok("```\nnew\n```".to_owned())) {
        Finish::Replace(text) => text,
        _ => panic!("expected a replacement"),
    };
    assert_eq!(replacement, "new");
    assert_eq!(state.check_source("old\n"), Ok(()));
    assert_eq!(state.check_source("other"), Err(InlineAssistError::SourceChanged));
    assert_eq!(state.show_preview(replacement.clone(), None), Err(InlineAssistError::NoTransaction));
    assert_eq!(state.show_preview(replacement, Some(7)), Ok(()));
    assert_eq!(state.phase(), InlineAssistPhase::Preview);
    let overlay = state.overlay();
    let rows: Vec<&str> = overlay.rows.iter().map(|row| row.text.as_str()).collect();
    assert!(rows.iter().any(|row| row.contains("old")), "{rows:?}");
    assert!(rows.iter().any(|row| row.contains("new")), "{rows:?}");
    assert_eq!(state.handle_key(&press(KeyCode::Esc)), InlineAssistInput::Reject);
    assert_eq!(state.reject(), Some(7));
    state.fail("gone".to_owned());
    assert_eq!(state.phase(), InlineAssistPhase::Failed);
    assert_eq!(state.overlay().rows.last().unwrap().text, "gone");
    assert_eq!(undo_outcome(true), Ok(()));
    assert_eq!(undo_outcome(false), Err(InlineAssistError::NotUndoable));
}

#[test]
fn streams_responses_in_parts_of_eight() {
    assert_eq!(response_chunks("123456789"), vec!["12345678", "9"]);
    assert_eq!(response_chunks("éééééééé"), vec!["éééééééé"]);
    assert!(response_chunks("").is_empty());
}

#[test]
fn chooses_where_a_rewrite_comes_from() {
    assert!(is_delete_instruction("  DELETE "));
    let (name, mut given) =
        start_completion(Some("123456789".to_owned()), "delete", ModelChoice::Missing).unwrap();
    assert_eq!(name, "fixture");
    assert_eq!(given.step(GenerationEvent::Started), GenerationAction::Send("12345678".to_owned()));
    assert_eq!(given.step(GenerationEvent::Sent), GenerationAction::Wait(5));
    assert_eq!(given.step(GenerationEvent::Waited), GenerationAction::Send("9".to_owned()));
    assert_eq!(given.step(GenerationEvent::Sent), GenerationAction::Finish(Ok("123456789".to_owned())));
    assert_eq!(given.step(GenerationEvent::Closed("closed".to_owned())), GenerationAction::Stop);
    let (name, mut nothing) = start_completion(None, "Delete", ModelChoice::Missing).unwrap();
    assert_eq!(name, "local delete");
    assert_eq!(nothing.step(GenerationEvent::Started), GenerationAction::Finish(Ok(String::new())));
    assert_eq!(
        start_completion(None, "rewrite", ModelChoice::Missing).err().unwrap(),
        "no inline assistant model is configured; use Agent /models or settings.json"
    );
    assert_eq!(
        start_completion(None, "rewrite", ModelChoice::NoRequest("why".to_owned())).err().unwrap(),
        "generate Zed inline transformation prompt: why"
    );
}

#[test]
fn long_preview_lines_are_cut_off() {
    let long = "x".repeat(600);
    assert!(bounded_line(&long).chars().count() <= 501);
    assert_eq!(bounded_line("short"), "short");
}

#[test]
fn the_status_shows_the_prompt_and_its_cursor() {
    let mut state = state("");
    state.handle_paste("日本");
    assert!(state.has_status_cursor());
    let (status, cursor) = state.status(None);
    assert!(status.contains("日本"), "{status}");
    assert_eq!(cursor, status.split("日本").next().unwrap().chars().count() + 4);
}

#[test]
fn a_model_writes_until_it_ends_or_fails() {
    let model = || start_completion(None, "rewrite", ModelChoice::Ready("m".to_owned())).unwrap();
    let (name, mut written) = model();
    assert_eq!(name, "m");
    assert_eq!(written.step(GenerationEvent::Started), GenerationAction::Open);
    assert_eq!(written.step(GenerationEvent::Opened(Ok(()))), GenerationAction::Next);
    for part in ["one ", "two"] {
        assert_eq!(
            written.step(GenerationEvent::Part(Ok(part.to_owned()))),
            GenerationAction::Send(part.to_owned())
        );
        assert_eq!(written.step(GenerationEvent::Sent), GenerationAction::Next);
    }
    assert_eq!(written.step(GenerationEvent::Ended), GenerationAction::Finish(Ok("one two".to_owned())));
    let failed = |event| model().1.step(event);
    assert_eq!(
        failed(GenerationEvent::Opened(Err("refused".to_owned()))),
        GenerationAction::Finish(Err("refused".to_owned()))
    );
    assert_eq!(
        failed(GenerationEvent::Part(Err("lost".to_owned()))),
        GenerationAction::Finish(Err("lost".to_owned()))
    );
    assert_eq!(
        failed(GenerationEvent::Closed("gone".to_owned())),
        GenerationAction::Finish(Err(
            "terminal event loop closed during inline generation: gone".to_owned()
        ))
    );
}
