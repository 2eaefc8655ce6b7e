//! Laws of keys.

use vstd::prelude::*;

use crate::input::{
    char_keystroke, intercepted, keystroke, named_key, KeyCode, KeyEvent, KeyEventKind, Modifiers,
};
use crate::text::{control, decimal};
use crate::input::control_press;

verus! {

/// A key that is let go makes no keystroke; one that is pressed or repeated
/// makes the same.
pub proof fn keys_that_are_let_go_make_no_stroke(event: KeyEvent)
    ensures
        event.kind is Release ==> keystroke(event) is None,
        keystroke(KeyEvent { kind: KeyEventKind::Press, ..event }) == keystroke(
            KeyEvent { kind: KeyEventKind::Repeat, ..event },
        ),
{
}

/// A keystroke holds the modifiers that were held: Meta stands for Alt, Super
/// for the platform's key. Shift alone can be taken for a part of the key.
pub proof fn keystrokes_keep_their_modifiers(event: KeyEvent)
    requires
        keystroke(event) is Some,
    ensures
        ({
            let stroke = keystroke(event)->0.modifiers;
            let held = event.modifiers;
            &&& stroke.control <==> held.control
            &&& stroke.alt <==> held.alt || held.meta
            &&& stroke.platform <==> held.super_key
            &&& !stroke.function
            &&& !(event.code is Char) ==> (stroke.shift <==> held.shift || event.code is BackTab)
            &&& event.code is Char && stroke.shift ==> held.shift
        }),
{
}

/// A key without a character of its own types nothing and goes by a name; the
/// names tell all keys apart but the two ways to press Tab, which Shift tells
/// apart.
pub proof fn keys_without_a_character_go_by_name(event: KeyEvent)
    requires
        !(event.kind is Release),
        !(event.code is Char),
    ensures
        match keystroke(event) {
            Some(stroke) => stroke.key_char is None && named_key(event.code) == Some(stroke.key)
                && stroke.key.len() > 1,
            None => event.code is Other,
        },
{
    reveal_strlit("backspace");
    reveal_strlit("enter");
    reveal_strlit("left");
    reveal_strlit("right");
    reveal_strlit("up");
    reveal_strlit("down");
    reveal_strlit("home");
    reveal_strlit("end");
    reveal_strlit("pageup");
    reveal_strlit("pagedown");
    reveal_strlit("tab");
    reveal_strlit("delete");
    reveal_strlit("insert");
    reveal_strlit("f");
    reveal_strlit("escape");
    reveal_strlit("menu");
    if let KeyCode::F(number) = event.code {
        crate::laws::text::decimals_are_read_back(number as nat, number as nat);
    }
}

/// What each key without a character of its own is called.
pub proof fn keys_are_called_by_their_names(event: KeyEvent)
    requires
        !(event.kind is Release),
        !(event.code is Char),
        !(event.code is Other),
    ensures
        keystroke(event) is Some,
        ({
            let key = keystroke(event)->0.key;
            &&& event.code is Left ==> key == "left"@
            &&& event.code is Right ==> key == "right"@
            &&& event.code is Up ==> key == "up"@
            &&& event.code is Down ==> key == "down"@
            &&& event.code is Home ==> key == "home"@
            &&& event.code is End ==> key == "end"@
            &&& event.code is PageUp ==> key == "pageup"@
            &&& event.code is PageDown ==> key == "pagedown"@
            &&& event.code is Backspace ==> key == "backspace"@
            &&& event.code is Delete ==> key == "delete"@
            &&& event.code is Insert ==> key == "insert"@
            &&& event.code is Enter ==> key == "enter"@
            &&& event.code is Esc ==> key == "escape"@
            &&& event.code is Menu ==> key == "menu"@
            &&& event.code is Tab || event.code is BackTab ==> key == "tab"@
            &&& event.code matches KeyCode::F(n) ==> key == "f"@ + decimal(n as nat)
        }),
{
}

/// The names of the keys, by their first letters and their lengths.
proof fn lemma_names_of_keys()
    ensures
        "backspace"@.len() == 9 && "backspace"@[0] == 'b',
        "enter"@.len() == 5 && "enter"@[0] == 'e',
        "left"@.len() == 4 && "left"@[0] == 'l',
        "right"@.len() == 5 && "right"@[0] == 'r',
        "up"@.len() == 2 && "up"@[0] == 'u',
        "down"@.len() == 4 && "down"@[0] == 'd',
        "home"@.len() == 4 && "home"@[0] == 'h',
        "end"@.len() == 3 && "end"@[0] == 'e',
        "pageup"@.len() == 6 && "pageup"@[0] == 'p',
        "pagedown"@.len() == 8 && "pagedown"@[0] == 'p',
        "tab"@.len() == 3 && "tab"@[0] == 't',
        "delete"@.len() == 6 && "delete"@[0] == 'd',
        "insert"@.len() == 6 && "insert"@[0] == 'i',
        "f"@.len() == 1 && "f"@[0] == 'f',
        "escape"@.len() == 6 && "escape"@[0] == 'e',
        "menu"@.len() == 4 && "menu"@[0] == 'm',
{
    reveal_strlit("backspace");
    reveal_strlit("enter");
    reveal_strlit("left");
    reveal_strlit("right");
    reveal_strlit("up");
    reveal_strlit("down");
    reveal_strlit("home");
    reveal_strlit("end");
    reveal_strlit("pageup");
    reveal_strlit("pagedown");
    reveal_strlit("tab");
    reveal_strlit("delete");
    reveal_strlit("insert");
    reveal_strlit("f");
    reveal_strlit("escape");
    reveal_strlit("menu");
}

/// Two keys have one name only where they are one key, but for the two ways to
/// press Tab.
pub proof fn names_tell_keys_apart(a: KeyCode, b: KeyCode)
    requires
        named_key(a) is Some,
        named_key(a) == named_key(b),
    ensures
        a == b || (a is Tab || a is BackTab) && (b is Tab || b is BackTab),
{
    lemma_names_of_keys();
    let (left, right) = (named_key(a)->0, named_key(b)->0);
    assert(left[0] == right[0] && left.len() == right.len());
    if let KeyCode::F(m) = a {
        crate::laws::text::decimals_are_read_back(m as nat, m as nat);
        assert(left[0] == 'f');
        if let KeyCode::F(n) = b {
            crate::laws::text::decimals_are_read_back(n as nat, n as nat);
            assert(left.skip(1) =~= decimal(m as nat));
            assert(right.skip(1) =~= decimal(n as nat));
        }
    } else if let KeyCode::F(n) = b {
        crate::laws::text::decimals_are_read_back(n as nat, n as nat);
        assert(right[0] == 'f');
    }
}

/// A character is typed as it is, unless a modifier makes a command of it:
/// Control without Alt, the platform's key, or the function key. Control
/// characters are not typed.
pub proof fn characters_are_typed_as_they_are(
    modifiers: Modifiers,
    c: char,
    lowered: Seq<char>,
    caseless: bool,
)
    ensures
        ({
            let stroke = char_keystroke(modifiers, c, lowered, caseless);
            &&& stroke.key_char is Some ==> stroke.key_char == Some(seq![c])
            &&& stroke.key_char is Some <==> !control(c) && !modifiers.platform
                && !modifiers.function && (modifiers.control ==> modifiers.alt)
            &&& c != ' ' ==> stroke.key == lowered
            &&& stroke.modifiers.control == modifiers.control
            &&& stroke.modifiers.alt == modifiers.alt
            &&& stroke.modifiers.platform == modifiers.platform
            &&& !modifiers.shift ==> !stroke.modifiers.shift
            &&& modifiers.shift && !caseless ==> stroke.modifiers.shift
            &&& modifiers.shift && caseless && lowered.len() == 1 && c != ' '
                ==> !stroke.modifiers.shift
        }),
{
}

/// A shortcut is a key with Control and no other modifier.
pub proof fn shortcuts_need_control_alone(event: KeyEvent)
    requires
        intercepted(event),
    ensures
        event.modifiers.control,
        !event.modifiers.shift && !event.modifiers.alt && !event.modifiers.super_key
            && !event.modifiers.hyper && !event.modifiers.meta,
        event.code is Char || event.code is PageUp || event.code is PageDown,
{
}

/// The shortcuts are kept from the editor, pressed, repeated or let go, and no
/// other key is: what is intercepted would, when pressed, quit, save, find, copy
/// or cut, or make, open, close or change a tab.
pub proof fn every_shortcut_is_intercepted(event: KeyEvent)
    ensures
        ({
            let pressed = KeyEvent { kind: KeyEventKind::Press, ..event };
            intercepted(event) <==> {
                ||| control_press(pressed, KeyCode::Char('q'))
                ||| control_press(pressed, KeyCode::Char('s'))
                ||| control_press(pressed, KeyCode::Char('o'))
                ||| control_press(pressed, KeyCode::Char('n'))
                ||| control_press(pressed, KeyCode::Char('w'))
                ||| control_press(pressed, KeyCode::Char('f'))
                ||| control_press(pressed, KeyCode::Char('c'))
                ||| control_press(pressed, KeyCode::Char('x'))
                ||| control_press(pressed, KeyCode::PageUp)
                ||| control_press(pressed, KeyCode::PageDown)
            }
        }),
        event.kind != KeyEventKind::Press ==> !control_press(event, event.code),
{
}

} // verus!
