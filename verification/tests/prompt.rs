use zec::input::{KeyCode, KeyEvent, KeyEventKind, KeyModifiers};
use zec::prompt::{LinePrompt, PromptAction};

fn key(code: KeyCode) -> KeyEvent {
    KeyEvent::new(code, KeyModifiers::none())
}

fn modified_key(code: KeyCode, modifiers: KeyModifiers) -> KeyEvent {
    KeyEvent::new(code, modifiers)
}

fn assert_cursor_is_valid(prompt: &LinePrompt) {
    assert!(prompt.cursor() <= prompt.text().len());
    assert!(prompt.text().is_char_boundary(prompt.cursor()));
}

#[test]
fn inserts_printable_characters_at_the_cursor() {
    let mut prompt = LinePrompt::with_text("ac");
    assert_eq!(
        prompt.handle_key(&key(KeyCode::Home)),
        PromptAction::CursorMoved
    );
    assert_eq!(
        prompt.handle_key(&key(KeyCode::Right)),
        PromptAction::CursorMoved
    );
    assert_eq!(
        prompt.handle_key(&key(KeyCode::Char('b'))),
        PromptAction::Changed
    );

    assert_eq!(prompt.text(), "abc");
    assert_eq!(prompt.cursor(), 2);
    assert_cursor_is_valid(&prompt);
}

#[test]
fn moves_and_deletes_at_utf8_char_boundaries() {
    let mut prompt = LinePrompt::with_text("日本🦀語");

    assert_eq!(prompt.cursor(), "日本🦀語".len());
    assert_eq!(
        prompt.handle_key(&key(KeyCode::Left)),
        PromptAction::CursorMoved
    );
    assert_eq!(prompt.cursor(), "日本🦀".len());
    assert_eq!(
        prompt.handle_key(&key(KeyCode::Backspace)),
        PromptAction::Changed
    );
    assert_eq!(prompt.text(), "日本語");
    assert_eq!(prompt.cursor(), "日本".len());
    assert_eq!(
        prompt.handle_key(&key(KeyCode::Delete)),
        PromptAction::Changed
    );
    assert_eq!(prompt.text(), "日本");
    assert_cursor_is_valid(&prompt);
}

#[test]
fn combining_marks_are_individual_scalar_positions() {
    let mut prompt = LinePrompt::with_text("e\u{301}x");

    prompt.handle_key(&key(KeyCode::Home));
    prompt.handle_key(&key(KeyCode::Right));
    assert_eq!(prompt.cursor(), 1);
    prompt.handle_key(&key(KeyCode::Right));
    assert_eq!(prompt.cursor(), "e\u{301}".len());
    assert_eq!(
        prompt.handle_key(&key(KeyCode::Backspace)),
        PromptAction::Changed
    );

    assert_eq!(prompt.text(), "ex");
    assert_eq!(prompt.cursor(), 1);
    assert_cursor_is_valid(&prompt);
}

#[test]
fn walks_emoji_sequences_without_breaking_utf8() {
    let mut prompt = LinePrompt::with_text("👩\u{200d}💻!");

    for _ in 0..4 {
        prompt.handle_key(&key(KeyCode::Left));
        assert_cursor_is_valid(&prompt);
    }
    assert_eq!(prompt.cursor(), 0);

    for _ in 0..4 {
        prompt.handle_key(&key(KeyCode::Right));
        assert_cursor_is_valid(&prompt);
    }
    assert_eq!(prompt.cursor(), prompt.text().len());
}

#[test]
fn home_end_and_boundary_edits_report_no_op() {
    let mut prompt = LinePrompt::with_text("abc");

    assert_eq!(prompt.handle_key(&key(KeyCode::End)), PromptAction::Ignored);
    assert_eq!(
        prompt.handle_key(&key(KeyCode::Delete)),
        PromptAction::Ignored
    );
    assert_eq!(
        prompt.handle_key(&key(KeyCode::Home)),
        PromptAction::CursorMoved
    );
    assert_eq!(
        prompt.handle_key(&key(KeyCode::Home)),
        PromptAction::Ignored
    );
    assert_eq!(
        prompt.handle_key(&key(KeyCode::Backspace)),
        PromptAction::Ignored
    );
}

#[test]
fn reports_submit_navigation_and_cancel_without_mutating_text() {
    let mut prompt = LinePrompt::with_text("needle");

    assert_eq!(
        prompt.handle_key(&key(KeyCode::Enter)),
        PromptAction::Submit
    );
    assert_eq!(
        prompt.handle_key(&modified_key(KeyCode::Enter, KeyModifiers::shift())),
        PromptAction::AlternateSubmit
    );
    assert_eq!(prompt.handle_key(&key(KeyCode::Down)), PromptAction::Next);
    assert_eq!(prompt.handle_key(&key(KeyCode::Up)), PromptAction::Previous);
    assert_eq!(prompt.handle_key(&key(KeyCode::Esc)), PromptAction::Cancel);
    assert_eq!(prompt.text(), "needle");
    assert_eq!(prompt.cursor(), "needle".len());
}

#[test]
fn ignores_release_events_and_modified_shortcuts() {
    let mut prompt = LinePrompt::new();
    let release = KeyEvent::new_with_kind(
        KeyCode::Char('x'),
        KeyModifiers::none(),
        KeyEventKind::Release,
    );

    assert_eq!(prompt.handle_key(&release), PromptAction::Ignored);
    for modifiers in [
        KeyModifiers::control(),
        KeyModifiers { alt: true, ..KeyModifiers::none() },
        KeyModifiers { super_key: true, ..KeyModifiers::none() },
        KeyModifiers { hyper: true, ..KeyModifiers::none() },
        KeyModifiers { meta: true, ..KeyModifiers::none() },
        KeyModifiers { alt: true, ..KeyModifiers::control() },
    ] {
        assert_eq!(
            prompt.handle_key(&modified_key(KeyCode::Char('x'), modifiers)),
            PromptAction::Ignored
        );
    }
    assert_eq!(
        prompt.handle_key(&modified_key(KeyCode::Enter, KeyModifiers::control())),
        PromptAction::Ignored
    );
    assert_eq!(prompt.text(), "");
}

#[test]
fn shift_does_not_block_printable_characters() {
    let mut prompt = LinePrompt::new();

    assert_eq!(
        prompt.handle_key(&modified_key(KeyCode::Char('A'), KeyModifiers::shift())),
        PromptAction::Changed
    );
    assert_eq!(prompt.text(), "A");
    assert_eq!(prompt.cursor(), 1);
}

#[test]
fn accepts_repeat_events_for_held_editing_keys() {
    let mut prompt = LinePrompt::with_text("ab");
    let repeat =
        KeyEvent::new_with_kind(KeyCode::Backspace, KeyModifiers::none(), KeyEventKind::Repeat);

    assert_eq!(prompt.handle_key(&repeat), PromptAction::Changed);
    assert_eq!(prompt.text(), "a");
}

#[test]
fn paste_inserts_only_the_first_line_at_the_cursor() {
    let mut prompt = LinePrompt::with_text("ab");
    prompt.handle_key(&key(KeyCode::Left));

    assert_eq!(
        prompt.handle_paste("日本🦀\r\nignored"),
        PromptAction::Changed
    );
    assert_eq!(prompt.text(), "a日本🦀b");
    assert_eq!(prompt.cursor(), "a日本🦀".len());
    assert_cursor_is_valid(&prompt);
}

#[test]
fn empty_first_paste_line_is_ignored() {
    let mut prompt = LinePrompt::with_text("unchanged");

    assert_eq!(prompt.handle_paste("\nsecond line"), PromptAction::Ignored);
    assert_eq!(prompt.text(), "unchanged");
    assert_eq!(prompt.cursor(), "unchanged".len());
}

#[test]
fn paste_preserves_combining_characters_and_tabs() {
    let mut prompt = LinePrompt::new();

    assert_eq!(prompt.handle_paste("e\u{301}\t🦀"), PromptAction::Changed);
    assert_eq!(prompt.text(), "e\u{301}\t🦀");
    assert_eq!(prompt.cursor(), prompt.text().len());
    assert_cursor_is_valid(&prompt);
}

#[test]
fn backspace_takes_back_what_was_typed() {
    let mut prompt = LinePrompt::with_text("ab");
    prompt.handle_key(&key(KeyCode::Left));
    prompt.handle_key(&key(KeyCode::Char('é')));
    assert_eq!(prompt.position(), 2);
    prompt.handle_key(&key(KeyCode::Backspace));
    assert_eq!(prompt.text(), "ab");
    assert_eq!(prompt.cursor(), 1);
}

#[test]
fn control_characters_are_not_typed() {
    let mut prompt = LinePrompt::new();
    assert_eq!(prompt.handle_key(&key(KeyCode::Char('\u{7}'))), PromptAction::Ignored);
    assert_eq!(prompt.text(), "");
}
