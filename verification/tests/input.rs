use zec::input::{
    is_close_tab, is_copy, is_cut, is_find, is_intercepted_shortcut, is_new_tab, is_next_tab, is_open,
    is_previous_tab, is_quit, is_save, to_gpui_keystroke, KeyCode, KeyEvent, KeyEventKind, KeyModifiers,
};

fn control_shift() -> KeyModifiers {
    KeyModifiers { shift: true, ..KeyModifiers::control() }
}

fn control_alt() -> KeyModifiers {
    KeyModifiers { alt: true, ..KeyModifiers::control() }
}

#[test]
fn maps_printable_characters() {
    let stroke =
        to_gpui_keystroke(KeyEvent::new(KeyCode::Char('A'), KeyModifiers::shift()))
            .unwrap();

    assert_eq!(stroke.key, "a");
    assert_eq!(stroke.key_char.as_deref(), Some("A"));
    assert!(stroke.modifiers.shift);
}

#[test]
fn does_not_insert_control_shortcuts() {
    let stroke = to_gpui_keystroke(KeyEvent::new(
        KeyCode::Char('z'),
        KeyModifiers::control(),
    ))
    .unwrap();

    assert_eq!(stroke.key, "z");
    assert_eq!(stroke.key_char, None);
    assert!(stroke.modifiers.control);
}

#[test]
fn normalizes_backtab() {
    let stroke =
        to_gpui_keystroke(KeyEvent::new(KeyCode::BackTab, KeyModifiers::none())).unwrap();

    assert_eq!(stroke.key, "tab");
    assert!(stroke.modifiers.shift);
}

#[test]
fn ignores_release_events() {
    let event = KeyEvent::new_with_kind(
        KeyCode::Char('a'),
        KeyModifiers::none(),
        KeyEventKind::Release,
    );

    assert!(to_gpui_keystroke(event).is_none());
}

#[test]
fn recognizes_only_plain_control_q_as_quit() {
    assert!(is_quit(&KeyEvent::new(
        KeyCode::Char('q'),
        KeyModifiers::control(),
    )));
    assert!(!is_quit(&KeyEvent::new(
        KeyCode::Char('q'),
        control_shift(),
    )));
    assert!(!is_quit(&KeyEvent::new_with_kind(
        KeyCode::Char('q'),
        KeyModifiers::control(),
        KeyEventKind::Repeat,
    )));
    assert!(!is_quit(&KeyEvent::new_with_kind(
        KeyCode::Char('q'),
        KeyModifiers::control(),
        KeyEventKind::Release,
    )));
}

#[test]
fn recognizes_only_plain_control_s_press_as_save() {
    assert!(is_save(&KeyEvent::new(
        KeyCode::Char('s'),
        KeyModifiers::control(),
    )));
    assert!(!is_save(&KeyEvent::new(
        KeyCode::Char('s'),
        control_shift(),
    )));
    assert!(!is_save(&KeyEvent::new_with_kind(
        KeyCode::Char('s'),
        KeyModifiers::control(),
        KeyEventKind::Repeat,
    )));
    assert!(!is_save(&KeyEvent::new_with_kind(
        KeyCode::Char('s'),
        KeyModifiers::control(),
        KeyEventKind::Release,
    )));
}

#[test]
fn recognizes_only_plain_control_f_press_as_find() {
    assert!(is_find(&KeyEvent::new(
        KeyCode::Char('f'),
        KeyModifiers::control(),
    )));
    assert!(!is_find(&KeyEvent::new(
        KeyCode::Char('f'),
        control_shift(),
    )));
    assert!(!is_find(&KeyEvent::new_with_kind(
        KeyCode::Char('f'),
        KeyModifiers::control(),
        KeyEventKind::Repeat,
    )));
    assert!(!is_find(&KeyEvent::new_with_kind(
        KeyCode::Char('f'),
        KeyModifiers::control(),
        KeyEventKind::Release,
    )));
}

#[test]
fn recognizes_only_plain_control_c_press_as_copy() {
    assert_plain_control_press_only(is_copy, 'c');
}

#[test]
fn recognizes_only_plain_control_x_press_as_cut() {
    assert_plain_control_press_only(is_cut, 'x');
}

#[test]
fn recognizes_only_plain_control_n_press_as_new_tab() {
    assert_plain_control_press_only(is_new_tab, 'n');
}

#[test]
fn recognizes_only_plain_control_o_press_as_open() {
    assert_plain_control_press_only(is_open, 'o');
}

#[test]
fn recognizes_only_plain_control_w_press_as_close_tab() {
    assert_plain_control_press_only(is_close_tab, 'w');
}

#[test]
fn recognizes_only_plain_control_page_up_press_as_previous_tab() {
    assert_plain_control_key_press_only(is_previous_tab, KeyCode::PageUp);
    assert!(!is_previous_tab(&KeyEvent::new(
        KeyCode::PageDown,
        KeyModifiers::control(),
    )));
}

#[test]
fn recognizes_only_plain_control_page_down_press_as_next_tab() {
    assert_plain_control_key_press_only(is_next_tab, KeyCode::PageDown);
    assert!(!is_next_tab(&KeyEvent::new(
        KeyCode::PageUp,
        KeyModifiers::control(),
    )));
}

fn assert_plain_control_press_only(recognizer: fn(&KeyEvent) -> bool, character: char) {
    assert_plain_control_key_press_only(recognizer, KeyCode::Char(character));
}

fn assert_plain_control_key_press_only(recognizer: fn(&KeyEvent) -> bool, code: KeyCode) {
    assert!(recognizer(&KeyEvent::new(
        code,
        KeyModifiers::control(),
    )));
    assert!(!recognizer(&KeyEvent::new(
        code,
        control_shift(),
    )));
    assert!(!recognizer(&KeyEvent::new(
        code,
        control_alt(),
    )));
    assert!(!recognizer(&KeyEvent::new(
        code,
        KeyModifiers::none(),
    )));
    assert!(!recognizer(&KeyEvent::new_with_kind(
        code,
        KeyModifiers::control(),
        KeyEventKind::Repeat,
    )));
    assert!(!recognizer(&KeyEvent::new_with_kind(
        code,
        KeyModifiers::control(),
        KeyEventKind::Release,
    )));
}

#[test]
fn reserves_cli_shortcuts_for_all_event_kinds() {
    assert!(is_intercepted_shortcut(&KeyEvent::new_with_kind(
        KeyCode::Char('q'),
        KeyModifiers::control(),
        KeyEventKind::Repeat,
    )));
    assert!(is_intercepted_shortcut(&KeyEvent::new_with_kind(
        KeyCode::Char('s'),
        KeyModifiers::control(),
        KeyEventKind::Release,
    )));
    assert!(is_intercepted_shortcut(&KeyEvent::new_with_kind(
        KeyCode::Char('f'),
        KeyModifiers::control(),
        KeyEventKind::Repeat,
    )));
    for character in ['c', 'n', 'o', 'w', 'x'] {
        assert!(is_intercepted_shortcut(&KeyEvent::new_with_kind(
            KeyCode::Char(character),
            KeyModifiers::control(),
            KeyEventKind::Repeat,
        )));
        assert!(is_intercepted_shortcut(&KeyEvent::new_with_kind(
            KeyCode::Char(character),
            KeyModifiers::control(),
            KeyEventKind::Release,
        )));
    }
    for code in [KeyCode::PageUp, KeyCode::PageDown] {
        assert!(is_intercepted_shortcut(&KeyEvent::new_with_kind(
            code,
            KeyModifiers::control(),
            KeyEventKind::Repeat,
        )));
        assert!(is_intercepted_shortcut(&KeyEvent::new_with_kind(
            code,
            KeyModifiers::control(),
            KeyEventKind::Release,
        )));
        assert!(!is_intercepted_shortcut(&KeyEvent::new(
            code,
            control_shift(),
        )));
    }
    assert!(!is_intercepted_shortcut(&KeyEvent::new(
        KeyCode::Char('z'),
        KeyModifiers::control(),
    )));
    assert!(!is_intercepted_shortcut(&KeyEvent::new(
        KeyCode::Char('c'),
        control_shift(),
    )));
}

#[test]
fn names_the_keys_that_type_nothing() {
    let name = |code: KeyCode| {
        to_gpui_keystroke(KeyEvent::new(code, KeyModifiers::none())).map(|stroke| (stroke.key, stroke.key_char))
    };
    assert_eq!(name(KeyCode::Enter), Some(("enter".to_string(), None)));
    assert_eq!(name(KeyCode::F(5)), Some(("f5".to_string(), None)));
    assert_eq!(name(KeyCode::PageUp), Some(("pageup".to_string(), None)));
    assert_eq!(name(KeyCode::Other), None);
}

#[test]
fn types_a_blank_and_letters_without_case() {
    let space = to_gpui_keystroke(KeyEvent::new(KeyCode::Char(' '), KeyModifiers::none())).unwrap();
    assert_eq!(space.key, "space");
    assert_eq!(space.key_char.as_deref(), Some(" "));
    let sharp = to_gpui_keystroke(KeyEvent::new(KeyCode::Char('É'), KeyModifiers::shift())).unwrap();
    assert_eq!(sharp.key, "é");
    assert_eq!(sharp.key_char.as_deref(), Some("É"));
}
