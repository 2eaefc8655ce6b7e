//! Terminal key events: the shortcuts that the editor keeps for itself, and
//! the keystrokes that the document editor gets.

use vstd::prelude::*;

use crate::text::{chars_of, control, is_control, same_text};

verus! {

/// Whether a key went down, is held down, or came up.
#[derive(Clone, Copy, Debug, PartialEq, Eq, Structural)]
pub enum KeyEventKind {
    Press,
    Repeat,
    Release,
}

/// The modifier keys held during a key event.
#[derive(Clone, Copy, Debug, PartialEq, Eq, Structural)]
pub struct KeyModifiers {
    pub shift: bool,
    pub control: bool,
    pub alt: bool,
    pub super_key: bool,
    pub hyper: bool,
    pub meta: bool,
}

/// The key of a key event.
#[derive(Clone, Copy, Debug, PartialEq, Eq, Structural)]
pub enum KeyCode {
    Backspace,
    Enter,
    Left,
    Right,
    Up,
    Down,
    Home,
    End,
    PageUp,
    PageDown,
    Tab,
    BackTab,
    Delete,
    Insert,
    F(u8),
    Char(char),
    Esc,
    Menu,
    /// A key that no command uses, such as a lock or a media key.
    Other,
}

/// One key event of the terminal.
#[derive(Clone, Copy, Debug, PartialEq, Eq, Structural)]
pub struct KeyEvent {
    pub code: KeyCode,
    pub modifiers: KeyModifiers,
    pub kind: KeyEventKind,
}

/// No modifier.
pub open spec fn no_modifiers() -> KeyModifiers {
    KeyModifiers {
        shift: false,
        control: false,
        alt: false,
        super_key: false,
        hyper: false,
        meta: false,
    }
}

/// Shift alone.
pub open spec fn only_shift() -> KeyModifiers {
    KeyModifiers { shift: true, ..no_modifiers() }
}

/// Control alone.
pub open spec fn only_control() -> KeyModifiers {
    KeyModifiers { control: true, ..no_modifiers() }
}

impl KeyModifiers {
    /// No modifier.
    pub fn none() -> (modifiers: Self)
        ensures
            modifiers == no_modifiers(),
    {
        KeyModifiers {
            shift: false,
            control: false,
            alt: false,
            super_key: false,
            hyper: false,
            meta: false,
        }
    }

    /// Shift alone.
    pub fn shift() -> (modifiers: Self)
        ensures
            modifiers == only_shift(),
    {
        let mut modifiers = KeyModifiers::none();
        modifiers.shift = true;
        modifiers
    }

    /// Control alone.
    pub fn control() -> (modifiers: Self)
        ensures
            modifiers == only_control(),
    {
        let mut modifiers = KeyModifiers::none();
        modifiers.control = true;
        modifiers
    }
}

impl KeyEvent {
    /// A key press.
    pub fn new(code: KeyCode, modifiers: KeyModifiers) -> (event: Self)
        ensures
            event.code == code,
            event.modifiers == modifiers,
            event.kind == KeyEventKind::Press,
    {
        KeyEvent { code, modifiers, kind: KeyEventKind::Press }
    }

    /// A key event of the given kind.
    pub fn new_with_kind(code: KeyCode, modifiers: KeyModifiers, kind: KeyEventKind) -> (event:
        Self)
        ensures
            event.code == code,
            event.modifiers == modifiers,
            event.kind == kind,
    {
        KeyEvent { code, modifiers, kind }
    }
}

/// The press of `code` with Control and no other modifier.
pub open spec fn control_press(event: KeyEvent, code: KeyCode) -> bool {
    event.kind == KeyEventKind::Press && event.code == code && event.modifiers == only_control()
}

fn is_control_press(event: &KeyEvent, code: KeyCode) -> (result: bool)
    ensures
        result == control_press(*event, code),
{
    event.kind == KeyEventKind::Press && event.code == code && event.modifiers
        == KeyModifiers::control()
}

pub fn is_quit(event: &KeyEvent) -> (result: bool)
    ensures
        result == control_press(*event, KeyCode::Char('q')),
{
    is_control_press(event, KeyCode::Char('q'))
}

pub fn is_save(event: &KeyEvent) -> (result: bool)
    ensures
        result == control_press(*event, KeyCode::Char('s')),
{
    is_control_press(event, KeyCode::Char('s'))
}

pub fn is_find(event: &KeyEvent) -> (result: bool)
    ensures
        result == control_press(*event, KeyCode::Char('f')),
{
    is_control_press(event, KeyCode::Char('f'))
}

pub fn is_copy(event: &KeyEvent) -> (result: bool)
    ensures
        result == control_press(*event, KeyCode::Char('c')),
{
    is_control_press(event, KeyCode::Char('c'))
}

pub fn is_cut(event: &KeyEvent) -> (result: bool)
    ensures
        result == control_press(*event, KeyCode::Char('x')),
{
    is_control_press(event, KeyCode::Char('x'))
}

pub fn is_new_tab(event: &KeyEvent) -> (result: bool)
    ensures
        result == control_press(*event, KeyCode::Char('n')),
{
    is_control_press(event, KeyCode::Char('n'))
}

pub fn is_open(event: &KeyEvent) -> (result: bool)
    ensures
        result == control_press(*event, KeyCode::Char('o')),
{
    is_control_press(event, KeyCode::Char('o'))
}

pub fn is_close_tab(event: &KeyEvent) -> (result: bool)
    ensures
        result == control_press(*event, KeyCode::Char('w')),
{
    is_control_press(event, KeyCode::Char('w'))
}

pub fn is_previous_tab(event: &KeyEvent) -> (result: bool)
    ensures
        result == control_press(*event, KeyCode::PageUp),
{
    is_control_press(event, KeyCode::PageUp)
}

pub fn is_next_tab(event: &KeyEvent) -> (result: bool)
    ensures
        result == control_press(*event, KeyCode::PageDown),
{
    is_control_press(event, KeyCode::PageDown)
}

/// The keys that mean a command when Control alone is held.
pub open spec fn shortcut_key(code: KeyCode) -> bool {
    match code {
        KeyCode::Char(c) => c == 'c' || c == 'f' || c == 'n' || c == 'o' || c == 'q' || c == 's'
            || c == 'w' || c == 'x',
        KeyCode::PageUp | KeyCode::PageDown => true,
        _ => false,
    }
}

/// The event belongs to a shortcut, whatever its kind.
pub open spec fn intercepted(event: KeyEvent) -> bool {
    event.modifiers == only_control() && shortcut_key(event.code)
}

/// Whether the event belongs to a shortcut, whatever its kind, and so never
/// reaches the document editor.
pub fn is_intercepted_shortcut(event: &KeyEvent) -> (result: bool)
    ensures
        result == intercepted(*event),
{
    if event.modifiers != KeyModifiers::control() {
        return false;
    }
    match event.code {
        KeyCode::Char(c) => c == 'c' || c == 'f' || c == 'n' || c == 'o' || c == 'q' || c == 's'
            || c == 'w' || c == 'x',
        KeyCode::PageUp => true,
        KeyCode::PageDown => true,
        _ => false,
    }
}

/// One of the recognizers of commands answers the event.
pub open spec fn recognized(event: KeyEvent) -> bool {
    ||| control_press(event, KeyCode::Char('q'))
    ||| control_press(event, KeyCode::Char('s'))
    ||| control_press(event, KeyCode::Char('f'))
    ||| control_press(event, KeyCode::Char('c'))
    ||| control_press(event, KeyCode::Char('x'))
    ||| control_press(event, KeyCode::Char('n'))
    ||| control_press(event, KeyCode::Char('o'))
    ||| control_press(event, KeyCode::Char('w'))
    ||| control_press(event, KeyCode::PageUp)
    ||| control_press(event, KeyCode::PageDown)
}

/// A press is intercepted just where one of the recognizers answers it, and
/// with it the same key held down or coming up.
pub proof fn recognized_shortcuts_are_intercepted(event: KeyEvent, kind: KeyEventKind)
    requires
        event.kind == KeyEventKind::Press,
    ensures
        recognized(event) == intercepted(event),
        intercepted(KeyEvent { kind, ..event }) == intercepted(event),
{
}

/// The modifier keys of a keystroke.
#[derive(Clone, Copy, Debug, PartialEq, Eq, Structural)]
pub struct Modifiers {
    pub control: bool,
    pub alt: bool,
    pub shift: bool,
    pub platform: bool,
    pub function: bool,
}

/// A keystroke as the document editor takes it: the name of the key, and the
/// text that it types, if any.
#[derive(Clone, Debug, PartialEq, Eq)]
pub struct Keystroke {
    pub modifiers: Modifiers,
    pub key: String,
    pub key_char: Option<String>,
}

/// The plain values of a [`Keystroke`].
pub struct KeystrokeView {
    pub modifiers: Modifiers,
    pub key: Seq<char>,
    pub key_char: Option<Seq<char>>,
}

impl View for Keystroke {
    type V = KeystrokeView;

    open spec fn view(&self) -> KeystrokeView {
        KeystrokeView {
            modifiers: self.modifiers,
            key: self.key@,
            key_char: match self.key_char {
                Some(text) => Some(text@),
                None => None,
            },
        }
    }
}

/// The lower case of one scalar value.
pub uninterp spec fn lowercase_char(c: char) -> Seq<char>;

/// The lower case of a text.
pub uninterp spec fn lowercase(s: Seq<char>) -> Seq<char>;

/// The upper case of a text.
pub uninterp spec fn uppercase(s: Seq<char>) -> Seq<char>;

/// `char::to_lowercase`, collected. The mapping is Unicode's and depends on
/// the scalar value alone; what it is stays unsaid.
#[verifier::external_body]
fn lower_char(c: char) -> (s: String)
    ensures
        s@ == lowercase_char(c),
{
    c.to_lowercase().collect()
}

/// `str::to_lowercase`: Unicode's mapping, which depends on the text alone;
/// what it is stays unsaid.
pub assume_specification[ str::to_lowercase ](s: &str) -> (result: String)
    ensures
        result@ == lowercase(s@),
;

/// `str::to_uppercase`: Unicode's mapping, which depends on the text alone;
/// what it is stays unsaid.
pub assume_specification[ str::to_uppercase ](s: &str) -> (result: String)
    ensures
        result@ == uppercase(s@),
;

/// The modifiers of a keystroke. Alt and Meta are one key to the editor.
pub open spec fn keystroke_modifiers(modifiers: KeyModifiers) -> Modifiers {
    Modifiers {
        control: modifiers.control,
        alt: modifiers.alt || modifiers.meta,
        shift: modifiers.shift,
        platform: modifiers.super_key,
        function: false,
    }
}

/// The name of a key that types no character.
pub open spec fn named_key(code: KeyCode) -> Option<Seq<char>> {
    match code {
        KeyCode::Backspace => Some("backspace"@),
        KeyCode::Enter => Some("enter"@),
        KeyCode::Left => Some("left"@),
        KeyCode::Right => Some("right"@),
        KeyCode::Up => Some("up"@),
        KeyCode::Down => Some("down"@),
        KeyCode::Home => Some("home"@),
        KeyCode::End => Some("end"@),
        KeyCode::PageUp => Some("pageup"@),
        KeyCode::PageDown => Some("pagedown"@),
        KeyCode::Tab | KeyCode::BackTab => Some("tab"@),
        KeyCode::Delete => Some("delete"@),
        KeyCode::Insert => Some("insert"@),
        KeyCode::F(number) => Some("f"@ + crate::text::decimal(number as nat)),
        KeyCode::Esc => Some("escape"@),
        KeyCode::Menu => Some("menu"@),
        KeyCode::Char(_) | KeyCode::Other => None,
    }
}

/// The name of the key that types `c`, whose lower case is `lowered`.
pub open spec fn char_key(c: char, lowered: Seq<char>) -> Seq<char> {
    if c == ' ' {
        "space"@
    } else {
        lowered
    }
}

/// The keystroke of the key that types `c`. `lowered` is the lower case of
/// `c`; `caseless` says whether the key's name is the same in both cases, as
/// it is for shifted punctuation, which needs no Shift.
pub open spec fn char_keystroke(
    modifiers: Modifiers,
    c: char,
    lowered: Seq<char>,
    caseless: bool,
) -> KeystrokeView {
    let key = char_key(c, lowered);
    KeystrokeView {
        modifiers: Modifiers {
            shift: modifiers.shift && !(key.len() == 1 && caseless),
            ..modifiers
        },
        key,
        // Control and Super make a shortcut of the key, but Control with Alt
        // can be AltGr.
        key_char: if !control(c) && !modifiers.platform && !modifiers.function && (
        !modifiers.control || modifiers.alt) {
            Some(seq![c])
        } else {
            None
        },
    }
}

/// The keystroke of a key event; a key that comes up, and a key without a
/// name, give none.
pub open spec fn keystroke(event: KeyEvent) -> Option<KeystrokeView> {
    let modifiers = keystroke_modifiers(event.modifiers);
    if event.kind == KeyEventKind::Release {
        None
    } else if let KeyCode::Char(c) = event.code {
        let lowered = lowercase_char(c);
        let key = char_key(c, lowered);
        Some(char_keystroke(modifiers, c, lowered, lowercase(key) == uppercase(key)))
    } else {
        match named_key(event.code) {
            Some(key) => Some(
                KeystrokeView {
                    modifiers: Modifiers {
                        shift: modifiers.shift || event.code == KeyCode::BackTab,
                        ..modifiers
                    },
                    key,
                    key_char: None,
                },
            ),
            None => None,
        }
    }
}

/// The text of one character.
fn char_string(c: char) -> (s: String)
    ensures
        s@ == seq![c],
{
    let mut s = String::new();
    s.push(c);
    assert(s@ =~= seq![c]);
    s
}

fn name_of_key(code: KeyCode) -> (key: Option<String>)
    ensures
        match named_key(code) {
            Some(name) => key is Some && key->0@ == name,
            None => key is None,
        },
{
    let name = match code {
        KeyCode::Backspace => "backspace",
        KeyCode::Enter => "enter",
        KeyCode::Left => "left",
        KeyCode::Right => "right",
        KeyCode::Up => "up",
        KeyCode::Down => "down",
        KeyCode::Home => "home",
        KeyCode::End => "end",
        KeyCode::PageUp => "pageup",
        KeyCode::PageDown => "pagedown",
        KeyCode::Tab => "tab",
        KeyCode::BackTab => "tab",
        KeyCode::Delete => "delete",
        KeyCode::Insert => "insert",
        KeyCode::F(number) => {
            let mut key = "f".to_owned();
            crate::text::push_decimal(&mut key, number as u64);
            return Some(key);
        },
        KeyCode::Esc => "escape",
        KeyCode::Menu => "menu",
        KeyCode::Char(_) => {
            return None;
        },
        KeyCode::Other => {
            return None;
        },
    };
    Some(name.to_owned())
}

/// The keystroke of the key that types `c`, given the lower case of `c` and
/// whether the key's name is the same in both cases.
pub fn to_char_keystroke(modifiers: Modifiers, c: char, lowered: String, caseless: bool) -> (stroke:
    Keystroke)
    ensures
        stroke@ == char_keystroke(modifiers, c, lowered@, caseless),
{
    let key = if c == ' ' {
        "space".to_owned()
    } else {
        lowered
    };
    let mut modifiers = modifiers;
    let key_char = if !is_control(c) && !modifiers.platform && !modifiers.function && (
    !modifiers.control || modifiers.alt) {
        Some(char_string(c))
    } else {
        None
    };
    if modifiers.shift && caseless && chars_of(key.as_str()).len() == 1 {
        modifiers.shift = false;
    }
    Keystroke { modifiers, key, key_char }
}

/// The keystroke that the document editor gets for a key event.
pub fn to_gpui_keystroke(event: KeyEvent) -> (stroke: Option<Keystroke>)
    ensures
        match keystroke(event) {
            Some(view) => stroke is Some && stroke->0@ == view,
            None => stroke is None,
        },
{
    if event.kind == KeyEventKind::Release {
        return None;
    }
    let mut modifiers = Modifiers {
        control: event.modifiers.control,
        alt: event.modifiers.alt || event.modifiers.meta,
        shift: event.modifiers.shift,
        platform: event.modifiers.super_key,
        function: false,
    };
    if let KeyCode::Char(c) = event.code {
        let lowered = lower_char(c);
        let key = if c == ' ' {
            "space".to_owned()
        } else {
            lowered.clone()
        };
        let lower = key.as_str().to_lowercase();
        let upper = key.as_str().to_uppercase();
        let caseless = same_text(lower.as_str(), upper.as_str());
        return Some(to_char_keystroke(modifiers, c, lowered, caseless));
    }
    if event.code == KeyCode::BackTab {
        modifiers.shift = true;
    }
    match name_of_key(event.code) {
        Some(key) => Some(Keystroke { modifiers, key, key_char: None }),
        None => None,
    }
}

} // verus!
