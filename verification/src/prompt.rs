//! The state of a single-line prompt.
//!
//! The cursor is always a UTF-8 byte offset between two scalar values.
//! Movement and deletion work on scalar values, not on grapheme clusters.
//! Paste is single-line: only the text before the first `\r` or `\n` goes in.

use vstd::prelude::*;

use crate::input::{
    no_modifiers, only_shift, KeyCode, KeyEvent, KeyEventKind, KeyModifiers,
};
use crate::text::{
    byte_len, chars_of, control, is_control, string_of, utf8_len,
};

verus! {

/// What one key did to a prompt.
///
/// A prompt consumes every key it is given: [`PromptAction::Ignored`] is not
/// passed on to the document editor.
#[derive(Clone, Copy, Debug, PartialEq, Eq, Structural)]
pub enum PromptAction {
    /// The text changed.
    Changed,
    /// Only the cursor moved.
    CursorMoved,
    /// Submit with Enter.
    Submit,
    /// Submit with Shift-Enter.
    AlternateSubmit,
    /// Move to the next item with Down.
    Next,
    /// Move to the previous item with Up.
    Previous,
    /// Close the prompt.
    Cancel,
    /// The key did nothing.
    Ignored,
}

/// The editable state of a single-line prompt.
#[derive(Debug, PartialEq, Eq)]
pub struct LinePrompt {
    text: String,
    cursor: usize,
    position: usize,
}

/// A line of text with a cursor before the scalar value at `position`.
pub struct Line {
    pub text: Seq<char>,
    pub position: int,
}

impl Line {
    /// The cursor stands within the text.
    pub open spec fn valid(self) -> bool {
        0 <= self.position <= self.text.len()
    }

    /// The cursor as a UTF-8 byte offset.
    pub open spec fn offset(self) -> nat {
        utf8_len(self.text.take(self.position))
    }

    /// `inserted` stands before the cursor, which moves behind it.
    pub open spec fn insert(self, inserted: Seq<char>) -> Line {
        Line {
            text: self.text.take(self.position) + inserted + self.text.skip(self.position),
            position: self.position + inserted.len(),
        }
    }

    /// The scalar value before the cursor is gone.
    pub open spec fn backspace(self) -> Line {
        Line {
            text: self.text.remove(self.position - 1),
            position: self.position - 1,
        }
    }

    /// The scalar value after the cursor is gone.
    pub open spec fn delete(self) -> Line {
        Line { text: self.text.remove(self.position), position: self.position }
    }

    /// The cursor stands at `position`.
    pub open spec fn at(self, position: int) -> Line {
        Line { position, ..self }
    }
}

/// The first line of a pasted text: what comes before the first `\r` or `\n`.
pub open spec fn first_line(text: Seq<char>) -> Seq<char>
    decreases text.len(),
{
    if text.len() == 0 || text[0] == '\r' || text[0] == '\n' {
        Seq::empty()
    } else {
        seq![text[0]] + first_line(text.drop_first())
    }
}

/// Whether a key with these modifiers types its character.
pub open spec fn types_text(modifiers: KeyModifiers) -> bool {
    !(modifiers.control || modifiers.alt || modifiers.super_key || modifiers.hyper
        || modifiers.meta)
}

/// A step of the cursor or an edit: what it leaves, and how it is reported.
pub open spec fn step(
    line: Line,
    possible: bool,
    result: Line,
    action: PromptAction,
) -> (Line, PromptAction) {
    if possible {
        (result, action)
    } else {
        (line, PromptAction::Ignored)
    }
}

/// What a key event does to a line, and how the prompt reports it.
pub open spec fn after_key(line: Line, event: KeyEvent) -> (Line, PromptAction) {
    let plain = event.modifiers == no_modifiers();
    let end = line.text.len() as int;
    if event.kind == KeyEventKind::Release {
        (line, PromptAction::Ignored)
    } else {
        match event.code {
            KeyCode::Enter if plain => (line, PromptAction::Submit),
            KeyCode::Enter if event.modifiers == only_shift() => (
                line,
                PromptAction::AlternateSubmit,
            ),
            KeyCode::Down if plain => (line, PromptAction::Next),
            KeyCode::Up if plain => (line, PromptAction::Previous),
            KeyCode::Esc if plain => (line, PromptAction::Cancel),
            KeyCode::Backspace if plain => step(
                line,
                line.position > 0,
                line.backspace(),
                PromptAction::Changed,
            ),
            KeyCode::Delete if plain => step(
                line,
                line.position < end,
                line.delete(),
                PromptAction::Changed,
            ),
            KeyCode::Left if plain => step(
                line,
                line.position > 0,
                line.at(line.position - 1),
                PromptAction::CursorMoved,
            ),
            KeyCode::Right if plain => step(
                line,
                line.position < end,
                line.at(line.position + 1),
                PromptAction::CursorMoved,
            ),
            KeyCode::Home if plain => step(
                line,
                line.position > 0,
                line.at(0),
                PromptAction::CursorMoved,
            ),
            KeyCode::End if plain => step(
                line,
                line.position < end,
                line.at(end),
                PromptAction::CursorMoved,
            ),
            KeyCode::Char(c) if !control(c) && types_text(event.modifiers) => (
                line.insert(seq![c]),
                PromptAction::Changed,
            ),
            _ => (line, PromptAction::Ignored),
        }
    }
}

/// What a paste does to a line, and how the prompt reports it.
pub open spec fn after_paste(line: Line, text: Seq<char>) -> (Line, PromptAction) {
    step(line, first_line(text).len() > 0, line.insert(first_line(text)), PromptAction::Changed)
}

impl View for LinePrompt {
    type V = Line;

    closed spec fn view(&self) -> Line {
        Line { text: self.text@, position: self.position as int }
    }
}

/// Builds the prompt that holds `chars` with its cursor at `position`.
fn prompt_at(chars: &[char], position: usize) -> (prompt: LinePrompt)
    requires
        position <= chars@.len(),
    ensures
        prompt@ == (Line { text: chars@, position: position as int }),
{
    let text = string_of(chars, 0, chars.len());
    assert(text@ =~= chars@);
    let before = string_of(chars, 0, position);
    assert(before@ =~= chars@.take(position as int));
    let cursor: usize = byte_len(before.as_str());
    LinePrompt { text, cursor, position }
}

impl LinePrompt {
    #[verifier::type_invariant]
    spec fn cursor_is_between_scalar_values(self) -> bool {
        &&& self.position <= self.text@.len()
        &&& self.cursor == utf8_len(self.text@.take(self.position as int))
    }

    /// An empty prompt.
    pub fn new() -> (prompt: Self)
        ensures
            prompt@ == (Line { text: Seq::empty(), position: 0 }),
    {
        let prompt = LinePrompt { text: String::new(), cursor: 0, position: 0 };
        assert(prompt@.text =~= Seq::<char>::empty());
        prompt
    }

    /// A prompt that holds `text`, with its cursor at the end.
    pub fn with_text(text: &str) -> (prompt: Self)
        ensures
            prompt@ == (Line { text: text@, position: text@.len() as int }),
    {
        let chars = chars_of(text);
        prompt_at(chars.as_slice(), chars.len())
    }

    pub fn text(&self) -> (text: &str)
        ensures
            text@ == self@.text,
    {
        self.text.as_str()
    }

    /// The cursor as a UTF-8 byte offset into [`LinePrompt::text`].
    pub fn cursor(&self) -> (cursor: usize)
        ensures
            self@.valid(),
            cursor == self@.offset(),
    {
        proof {
            use_type_invariant(self);
        }
        self.cursor
    }

    /// The number of scalar values before the cursor.
    pub fn position(&self) -> (position: usize)
        ensures
            self@.valid(),
            position == self@.position,
    {
        proof {
            use_type_invariant(self);
        }
        self.position
    }

    /// Handles one key event.
    pub fn handle_key(&mut self, event: &KeyEvent) -> (action: PromptAction)
        ensures
            old(self)@.valid(),
            (final(self)@, action) == after_key(old(self)@, *event),
    {
        proof {
            use_type_invariant(&*self);
        }
        if event.kind == KeyEventKind::Release {
            return PromptAction::Ignored;
        }
        let plain = event.modifiers == KeyModifiers::none();
        let shifted = event.modifiers == KeyModifiers::shift();
        let typing = !(event.modifiers.control || event.modifiers.alt || event.modifiers.super_key
            || event.modifiers.hyper || event.modifiers.meta);
        if let KeyCode::Char(c) = event.code {
            if !typing || is_control(c) {
                return PromptAction::Ignored;
            }
            let mut typed: Vec<char> = Vec::new();
            typed.push(c);
            assert(typed@ =~= seq![c]);
            self.insert(typed);
            return PromptAction::Changed;
        }
        if event.code == KeyCode::Enter && shifted {
            return PromptAction::AlternateSubmit;
        }
        if !plain {
            return PromptAction::Ignored;
        }
        match event.code {
            KeyCode::Enter => PromptAction::Submit,
            KeyCode::Down => PromptAction::Next,
            KeyCode::Up => PromptAction::Previous,
            KeyCode::Esc => PromptAction::Cancel,
            KeyCode::Backspace => self.backspace(),
            KeyCode::Delete => self.delete(),
            KeyCode::Left => self.move_left(),
            KeyCode::Right => self.move_right(),
            KeyCode::Home => self.move_home(),
            KeyCode::End => self.move_end(),
            _ => PromptAction::Ignored,
        }
    }

    /// Inserts the first line of a pasted text.
    pub fn handle_paste(&mut self, text: &str) -> (action: PromptAction)
        ensures
            old(self)@.valid(),
            (final(self)@, action) == after_paste(old(self)@, text@),
    {
        proof {
            use_type_invariant(&*self);
        }
        let mut line: Vec<char> = Vec::new();
        let chars = chars_of(text);
        let mut i: usize = 0;
        assert(chars@.skip(0) =~= text@);
        assert(line@ + first_line(text@) =~= first_line(text@));
        while i < chars.len() && chars[i] != '\r' && chars[i] != '\n'
            invariant
                i <= chars@.len(),
                chars@ == text@,
                line@ + first_line(text@.skip(i as int)) == first_line(text@),
            decreases chars@.len() - i,
        {
            let ghost rest = text@.skip(i as int);
            let ghost before = line@;
            line.push(chars[i]);
            i += 1;
            assert(rest.drop_first() =~= text@.skip(i as int));
            assert(before + (seq![rest[0]] + first_line(rest.drop_first())) =~= line@ + first_line(
                text@.skip(i as int),
            ));
        }
        assert(line@ =~= first_line(text@));
        if line.len() == 0 {
            return PromptAction::Ignored;
        }
        self.insert(line);
        PromptAction::Changed
    }

    fn insert(&mut self, inserted: Vec<char>)
        requires
            old(self)@.valid(),
        ensures
            final(self)@ == old(self)@.insert(inserted@),
    {
        let mut chars = chars_of(self.text.as_str());
        let position: usize = self.position;
        let mut rest = chars.split_off(position);
        let ghost added = inserted@;
        let mut inserted = inserted;
        chars.append(&mut inserted);
        let behind: usize = chars.len();
        chars.append(&mut rest);
        *self = prompt_at(chars.as_slice(), behind);
        assert(self@.text =~= old(self)@.insert(added).text);
    }

    fn backspace(&mut self) -> (action: PromptAction)
        requires
            old(self)@.valid(),
        ensures
            (final(self)@, action) == step(
                old(self)@,
                old(self)@.position > 0,
                old(self)@.backspace(),
                PromptAction::Changed,
            ),
    {
        if self.position == 0 {
            return PromptAction::Ignored;
        }
        let mut chars = chars_of(self.text.as_str());
        let position: usize = self.position - 1;
        chars.remove(position);
        *self = prompt_at(chars.as_slice(), position);
        PromptAction::Changed
    }

    fn delete(&mut self) -> (action: PromptAction)
        requires
            old(self)@.valid(),
        ensures
            (final(self)@, action) == step(
                old(self)@,
                old(self)@.position < old(self)@.text.len(),
                old(self)@.delete(),
                PromptAction::Changed,
            ),
    {
        let mut chars = chars_of(self.text.as_str());
        let position: usize = self.position;
        if position == chars.len() {
            return PromptAction::Ignored;
        }
        chars.remove(position);
        *self = prompt_at(chars.as_slice(), position);
        PromptAction::Changed
    }

    fn move_left(&mut self) -> (action: PromptAction)
        requires
            old(self)@.valid(),
        ensures
            (final(self)@, action) == step(
                old(self)@,
                old(self)@.position > 0,
                old(self)@.at(old(self)@.position - 1),
                PromptAction::CursorMoved,
            ),
    {
        if self.position == 0 {
            return PromptAction::Ignored;
        }
        let chars = chars_of(self.text.as_str());
        *self = prompt_at(chars.as_slice(), self.position - 1);
        PromptAction::CursorMoved
    }

    fn move_right(&mut self) -> (action: PromptAction)
        requires
            old(self)@.valid(),
        ensures
            (final(self)@, action) == step(
                old(self)@,
                old(self)@.position < old(self)@.text.len(),
                old(self)@.at(old(self)@.position + 1),
                PromptAction::CursorMoved,
            ),
    {
        let chars = chars_of(self.text.as_str());
        if self.position == chars.len() {
            return PromptAction::Ignored;
        }
        *self = prompt_at(chars.as_slice(), self.position + 1);
        PromptAction::CursorMoved
    }

    fn move_home(&mut self) -> (action: PromptAction)
        requires
            old(self)@.valid(),
        ensures
            (final(self)@, action) == step(
                old(self)@,
                old(self)@.position > 0,
                old(self)@.at(0),
                PromptAction::CursorMoved,
            ),
    {
        if self.position == 0 {
            return PromptAction::Ignored;
        }
        let chars = chars_of(self.text.as_str());
        *self = prompt_at(chars.as_slice(), 0);
        PromptAction::CursorMoved
    }

    fn move_end(&mut self) -> (action: PromptAction)
        requires
            old(self)@.valid(),
        ensures
            (final(self)@, action) == step(
                old(self)@,
                old(self)@.position < old(self)@.text.len(),
                old(self)@.at(old(self)@.text.len() as int),
                PromptAction::CursorMoved,
            ),
    {
        let chars = chars_of(self.text.as_str());
        if self.position == chars.len() {
            return PromptAction::Ignored;
        }
        *self = prompt_at(chars.as_slice(), chars.len());
        PromptAction::CursorMoved
    }
}

impl Clone for LinePrompt {
    fn clone(&self) -> (prompt: Self)
        ensures
            prompt@ == self@,
    {
        proof {
            use_type_invariant(self);
        }
        LinePrompt { text: self.text.clone(), cursor: self.cursor, position: self.position }
    }
}

impl Default for LinePrompt {
    fn default() -> (prompt: Self)
        ensures
            prompt@ == (Line { text: Seq::empty(), position: 0 }),
    {
        LinePrompt::new()
    }
}

/// Whatever key arrives, the cursor stays within the text.
pub proof fn keys_keep_the_cursor_valid(line: Line, event: KeyEvent)
    requires
        line.valid(),
    ensures
        after_key(line, event).0.valid(),
{
}

/// A key whose action is neither `Changed` nor `CursorMoved` leaves the
/// prompt as it was, and one that only moves the cursor leaves the text.
pub proof fn actions_tell_what_changed(line: Line, event: KeyEvent)
    requires
        line.valid(),
    ensures
        ({
            let (after, action) = after_key(line, event);
            &&& action != PromptAction::Changed ==> after.text == line.text
            &&& action != PromptAction::Changed && action != PromptAction::CursorMoved ==> after
                == line
            &&& action == PromptAction::CursorMoved ==> after.position != line.position
            &&& action == PromptAction::Changed ==> after.text != line.text
        }),
{
    let (after, action) = after_key(line, event);
    if action == PromptAction::Changed {
        assert(after.text.len() != line.text.len());
    }
}

/// Backspace takes back the character that was just typed.
pub proof fn backspace_undoes_typing(line: Line, c: char)
    requires
        line.valid(),
    ensures
        line.insert(seq![c]).backspace() == line,
{
    assert(line.insert(seq![c]).backspace().text =~= line.text);
}

/// Typing the deleted character, and stepping back, takes back Delete.
pub proof fn typing_undoes_delete(line: Line)
    requires
        line.valid(),
        line.position < line.text.len(),
    ensures
        line.delete().insert(seq![line.text[line.position]]).at(line.position) == line,
{
    assert(line.delete().insert(seq![line.text[line.position]]).text =~= line.text);
}

/// A paste inserts its first line as if it were typed: the same text, and the
/// cursor behind it.
pub proof fn paste_is_typing(line: Line, first: char, rest: Seq<char>)
    requires
        line.valid(),
    ensures
        line.insert(seq![first] + rest) == line.insert(seq![first]).insert(rest),
{
    assert(line.insert(seq![first] + rest).text =~= line.insert(seq![first]).insert(rest).text);
}

/// What a paste inserts holds no line break, and the text that follows it in
/// the payload, if any, starts with one.
pub proof fn first_line_ends_at_a_line_break(text: Seq<char>)
    ensures
        first_line(text).len() <= text.len(),
        first_line(text) == text.take(first_line(text).len() as int),
        !first_line(text).contains('\r') && !first_line(text).contains('\n'),
        first_line(text).len() < text.len() ==> text[first_line(text).len() as int] == '\r'
            || text[first_line(text).len() as int] == '\n',
    decreases text.len(),
{
    if text.len() > 0 && text[0] != '\r' && text[0] != '\n' {
        first_line_ends_at_a_line_break(text.drop_first());
        let tail = first_line(text.drop_first());
        let line = first_line(text);
        assert(line =~= text.take(line.len() as int));
        assert forall|i: int| 0 <= i < line.len() implies line[i] != '\r' && line[i] != '\n' by {
            if i > 0 {
                assert(line[i] == tail[i - 1]);
                assert(tail.contains(tail[i - 1]));
            }
        }
        if line.len() < text.len() {
            assert(text[line.len() as int] == text.drop_first()[tail.len() as int]);
        }
    } else {
        assert(first_line(text) =~= text.take(0));
    }
}

/// A key event that is no release, and with which no modifier is held.
pub open spec fn pressed_alone(event: KeyEvent, code: KeyCode) -> bool {
    &&& event.code == code
    &&& !(event.kind is Release)
    &&& !event.modifiers.shift && !event.modifiers.control && !event.modifiers.alt
    &&& !event.modifiers.super_key && !event.modifiers.hyper && !event.modifiers.meta
}

/// Where the keys of the cursor leave it, whatever it was before: Home at the
/// start of the text, End at its end, Left and Right one scalar value nearer to
/// either. None of them touches the text, and each says that it moved the
/// cursor just where it did.
pub proof fn cursor_keys_lead_to_their_places(line: Line, event: KeyEvent)
    requires
        line.valid(),
    ensures
        ({
            let (after, action) = after_key(line, event);
            let moved = |to: int|
                {
                    &&& after.text == line.text
                    &&& after.position == to
                    &&& action == if to == line.position {
                        PromptAction::Ignored
                    } else {
                        PromptAction::CursorMoved
                    }
                };
            &&& pressed_alone(event, KeyCode::Home) ==> moved(0)
            &&& pressed_alone(event, KeyCode::End) ==> moved(line.text.len() as int)
            &&& pressed_alone(event, KeyCode::Left) ==> moved(
                if line.position == 0 {
                    0
                } else {
                    line.position - 1
                },
            )
            &&& pressed_alone(event, KeyCode::Right) ==> moved(
                if line.position == line.text.len() {
                    line.position
                } else {
                    line.position + 1
                },
            )
        }),
{
}

/// What the keys of editing leave: Backspace drops the scalar value before the
/// cursor, Delete the one behind it, and a character goes in before the cursor.
/// What stands before and behind stays as it is, in its order.
pub proof fn editing_keys_change_one_scalar_value(line: Line, event: KeyEvent, c: char)
    requires
        line.valid(),
    ensures
        ({
            let (after, action) = after_key(line, event);
            let before = line.text.subrange(0, line.position);
            let behind = line.text.subrange(line.position, line.text.len() as int);
            &&& pressed_alone(event, KeyCode::Backspace) && before.len() > 0 ==> {
                &&& after.text == before.drop_last() + behind
                &&& after.position == before.len() - 1
                &&& action == PromptAction::Changed
            }
            &&& pressed_alone(event, KeyCode::Delete) && behind.len() > 0 ==> {
                &&& after.text == before + behind.drop_first()
                &&& after.position == before.len()
                &&& action == PromptAction::Changed
            }
            &&& pressed_alone(event, KeyCode::Backspace) && before.len() == 0 || pressed_alone(
                event,
                KeyCode::Delete,
            ) && behind.len() == 0 ==> after == line && action == PromptAction::Ignored
            &&& event.code == KeyCode::Char(c) && !(event.kind is Release) && !control(c)
                && !event.modifiers.control && !event.modifiers.alt && !event.modifiers.super_key
                && !event.modifiers.hyper && !event.modifiers.meta ==> {
                &&& after.text == before.push(c) + behind
                &&& after.position == before.len() + 1
                &&& action == PromptAction::Changed
            }
        }),
{
    let (after, action) = after_key(line, event);
    let before = line.text.subrange(0, line.position);
    let behind = line.text.subrange(line.position, line.text.len() as int);
    assert(line.text =~= before + behind);
    if pressed_alone(event, KeyCode::Backspace) && before.len() > 0 {
        assert(after.text =~= before.drop_last() + behind);
    }
    if pressed_alone(event, KeyCode::Delete) && behind.len() > 0 {
        assert(after.text =~= before + behind.drop_first());
    }
    if event.code == KeyCode::Char(c) {
        assert(line.insert(seq![c]).text =~= before.push(c) + behind);
    }
}

/// The keys that speak to whoever shows the prompt: Enter submits, with Shift
/// in the other way, Up and Down go through a list, Escape cancels. They leave
/// the prompt as it is. So does a key that comes up, a control character, a
/// character with a modifier that makes a command of it, and every other key
/// with a modifier.
pub proof fn other_keys_leave_the_prompt(line: Line, event: KeyEvent)
    requires
        line.valid(),
    ensures
        ({
            let (after, action) = after_key(line, event);
            let m = event.modifiers;
            &&& pressed_alone(event, KeyCode::Enter) ==> after == line && action
                == PromptAction::Submit
            &&& event.code == KeyCode::Enter && !(event.kind is Release) && m.shift && !m.control
                && !m.alt && !m.super_key && !m.hyper && !m.meta ==> after == line && action
                == PromptAction::AlternateSubmit
            &&& pressed_alone(event, KeyCode::Up) ==> after == line && action
                == PromptAction::Previous
            &&& pressed_alone(event, KeyCode::Down) ==> after == line && action
                == PromptAction::Next
            &&& pressed_alone(event, KeyCode::Esc) ==> after == line && action
                == PromptAction::Cancel
            &&& event.kind is Release ==> after == line && action == PromptAction::Ignored
            &&& (match event.code {
                KeyCode::Char(c) => control(c) || m.control || m.alt || m.super_key || m.hyper
                    || m.meta,
                _ => false,
            }) ==> after == line && action == PromptAction::Ignored
            &&& !(event.code is Char) && (m.control || m.alt || m.super_key || m.hyper || m.meta
                || m.shift && event.code != KeyCode::Enter) ==> after == line && action
                == PromptAction::Ignored
        }),
{
}

/// A paste puts what stands before its first line break in at the cursor, which
/// then stands behind it; a paste without such a text does nothing.
pub proof fn pastes_go_in_at_the_cursor(line: Line, text: Seq<char>, first: Seq<char>, rest: Seq<char>)
    requires
        line.valid(),
        text == first + rest,
        forall|i: int| 0 <= i < first.len() ==> #[trigger] first[i] != '\r' && first[i] != '\n',
        rest.len() == 0 || rest[0] == '\r' || rest[0] == '\n',
    ensures
        ({
            let (after, action) = after_paste(line, text);
            let before = line.text.subrange(0, line.position);
            let behind = line.text.subrange(line.position, line.text.len() as int);
            &&& after.text == before + first + behind
            &&& after.position == before.len() + first.len()
            &&& action == if first.len() == 0 {
                PromptAction::Ignored
            } else {
                PromptAction::Changed
            }
        }),
{
    first_line_ends_at_a_line_break(text);
    let taken = first_line(text);
    if taken.len() < first.len() {
        assert(text[taken.len() as int] == first[taken.len() as int]);
    } else if first.len() < taken.len() {
        assert(taken[first.len() as int] == text[first.len() as int] == rest[0]);
        assert(taken.contains(rest[0]));
    }
    assert(taken =~= first);
    let before = line.text.subrange(0, line.position);
    let behind = line.text.subrange(line.position, line.text.len() as int);
    assert(line.text =~= before + behind);
    assert(line.insert(first).text =~= before + first + behind);
    if first.len() == 0 {
        assert(before + first + behind =~= line.text);
    }
}

} // verus!
