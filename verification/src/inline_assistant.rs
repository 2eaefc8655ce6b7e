//! The inline assistant: an instruction, the text that a model writes for it,
//! and the preview of the change.

use similar::{ChangeTag, TextDiff};
use unicode_width::UnicodeWidthStr;
use vstd::prelude::*;
use vstd::string::*;

use crate::geometry::{least, word, Point};
use crate::input::{no_modifiers, KeyCode, KeyEvent, KeyEventKind, KeyModifiers};
use crate::overlay::{push_row, row, row_texts, OverlayView, RowText};
use crate::prompt::{after_key, after_paste, Line, LinePrompt, PromptAction};
use crate::render::{OverlayRow, OverlaySnapshot};
use crate::text::{
    bound, bounded, byte_len, chars_of, decimal, ends, ends_with, find_char, first_index,
    lemma_first_index, lines, lines_of, push_decimal, same_folded, same_ignoring_case, same_text,
    starts, starts_with, string_of, texts, trim, trim_end_char, trimmed, utf8_len, without_end,
};

verus! {

broadcast use vstd::string::group_string_axioms;

pub const MAX_PREVIEW_ROWS: usize = 160;

pub const MAX_PREVIEW_LINE_CHARS: usize = 500;

#[derive(Clone, Copy, Debug, PartialEq, Eq, Structural)]
pub enum InlineAssistPhase {
    Prompt,
    Generating,
    Preview,
    Failed,
}

/// What the caller has to do after a key.
#[derive(Clone, Copy, Debug, PartialEq, Eq, Structural)]
pub enum InlineAssistInput {
    Consumed,
    Start,
    Accept,
    Reject,
    Close,
}

/// Why the assistant cannot work on a place, or cannot go on.
#[derive(Clone, Copy, Debug, PartialEq, Eq, Structural)]
pub enum InlineAssistError {
    EditorIsReadOnly,
    OutsideASource,
    ManySources,
    SourceIsGone,
    SourceIsReadOnly,
    SourceChanged,
    NoTransaction,
    NotUndoable,
}

impl InlineAssistError {
    pub open spec fn text(self) -> Seq<char> {
        match self {
            InlineAssistError::EditorIsReadOnly => "the active editor is read-only"@,
            InlineAssistError::OutsideASource => {
                "the inline-assistant range is outside a source buffer"@
            },
            InlineAssistError::ManySources => {
                "an inline-assistant transformation cannot span multiple source buffers"@
            },
            InlineAssistError::SourceIsGone => "the inline-assistant source buffer disappeared"@,
            InlineAssistError::SourceIsReadOnly => {
                "the inline-assistant source buffer is read-only"@
            },
            InlineAssistError::SourceChanged => {
                "source changed while the inline assistant was generating"@
            },
            InlineAssistError::NoTransaction => {
                "inline-assistant replacement did not create a transaction"@
            },
            InlineAssistError::NotUndoable => {
                "inline-assistant preview transaction is no longer undoable"@
            },
        }
    }

    /// The error in words.
    pub fn message(&self) -> (message: &'static str)
        ensures
            message@ == self.text(),
    {
        match self {
            InlineAssistError::EditorIsReadOnly => "the active editor is read-only",
            InlineAssistError::OutsideASource => {
                "the inline-assistant range is outside a source buffer"
            },
            InlineAssistError::ManySources => {
                "an inline-assistant transformation cannot span multiple source buffers"
            },
            InlineAssistError::SourceIsGone => "the inline-assistant source buffer disappeared",
            InlineAssistError::SourceIsReadOnly => {
                "the inline-assistant source buffer is read-only"
            },
            InlineAssistError::SourceChanged => {
                "source changed while the inline assistant was generating"
            },
            InlineAssistError::NoTransaction => {
                "inline-assistant replacement did not create a transaction"
            },
            InlineAssistError::NotUndoable => {
                "inline-assistant preview transaction is no longer undoable"
            },
        }
    }
}

/// The rows that the assistant rewrites: those of the selection, but for the
/// last one where the selection ends at its start.
pub open spec fn scope(start: Point, end: Point) -> (u32, u32) {
    if end.column == 0 && start.row != end.row && end.row > 0 {
        (start.row, (end.row - 1) as u32)
    } else {
        (start.row, end.row)
    }
}

/// The first and the last row that the assistant rewrites for a selection.
pub fn rewrite_rows(start: Point, end: Point) -> (rows: (u32, u32))
    ensures
        rows == scope(start, end),
{
    if end.column == 0 && start.row != end.row {
        (start.row, end.row.saturating_sub(1))
    } else {
        (start.row, end.row)
    }
}

/// Where the assistant is to work: how many sources the selection lies in,
/// and whether the first of them is there and takes edits.
#[derive(Clone, Copy, Debug, PartialEq, Eq, Structural)]
pub struct InlineAssistTarget {
    pub read_only: bool,
    pub sources: usize,
    pub present: bool,
    pub writable: bool,
}

/// Why the assistant cannot work there.
pub open spec fn target_fault(target: InlineAssistTarget) -> Option<InlineAssistError> {
    if target.read_only {
        Some(InlineAssistError::EditorIsReadOnly)
    } else if target.sources == 0 {
        Some(InlineAssistError::OutsideASource)
    } else if target.sources > 1 {
        Some(InlineAssistError::ManySources)
    } else if !target.present {
        Some(InlineAssistError::SourceIsGone)
    } else if !target.writable {
        Some(InlineAssistError::SourceIsReadOnly)
    } else {
        None
    }
}

/// What the assistant holds.
pub struct Assist {
    pub original: Seq<char>,
    pub prompt: Line,
    pub phase: InlineAssistPhase,
    pub generation: u64,
    pub generated: Seq<char>,
    pub replacement: Option<Seq<char>>,
    pub model_name: Option<Seq<char>>,
    pub error: Option<Seq<char>>,
    pub transaction: Option<u64>,
    pub running: bool,
}

/// The text of an optional string.
pub open spec fn optional(text: Option<String>) -> Option<Seq<char>> {
    match text {
        Some(text) => Some(text@),
        None => None,
    }
}

/// What came of a finished generation.
#[derive(Debug, PartialEq, Eq)]
pub enum Finish {
    /// It was not the one that runs.
    Stale,
    /// It failed.
    Failed,
    /// The text to put in place of the original.
    Replace(String),
}

impl Assist {
    /// What a key does, and what is to be done then.
    pub open spec fn after_key(self, key: KeyEvent) -> (Assist, InlineAssistInput) {
        let plain = key.modifiers == no_modifiers();
        let enter = plain && key.code == KeyCode::Enter;
        let escape = plain && key.code == KeyCode::Esc;
        if key.kind == KeyEventKind::Release {
            (self, InlineAssistInput::Consumed)
        } else {
            match self.phase {
                InlineAssistPhase::Prompt => {
                    let (prompt, action) = after_key(self.prompt, key);
                    let next = Assist { prompt, ..self };
                    match action {
                        PromptAction::Submit | PromptAction::AlternateSubmit => if trimmed(
                            prompt.text,
                        ).len() == 0 {
                            (
                                Assist { error: Some("enter an instruction"@), ..next },
                                InlineAssistInput::Consumed,
                            )
                        } else {
                            (next, InlineAssistInput::Start)
                        },
                        PromptAction::Cancel => (next, InlineAssistInput::Close),
                        PromptAction::Changed => (
                            Assist { error: None, ..next },
                            InlineAssistInput::Consumed,
                        ),
                        _ => (next, InlineAssistInput::Consumed),
                    }
                },
                InlineAssistPhase::Generating => (
                    self,
                    if escape {
                        InlineAssistInput::Close
                    } else {
                        InlineAssistInput::Consumed
                    },
                ),
                InlineAssistPhase::Preview => (
                    self,
                    if enter {
                        InlineAssistInput::Accept
                    } else if escape {
                        InlineAssistInput::Reject
                    } else {
                        InlineAssistInput::Consumed
                    },
                ),
                InlineAssistPhase::Failed => (
                    self,
                    if enter {
                        InlineAssistInput::Start
                    } else if escape {
                        InlineAssistInput::Close
                    } else {
                        InlineAssistInput::Consumed
                    },
                ),
            }
        }
    }

    /// The assistant as a generation starts.
    pub open spec fn begun(self) -> Assist {
        Assist {
            phase: InlineAssistPhase::Generating,
            generation: next_generation(self.generation),
            generated: Seq::empty(),
            replacement: None,
            model_name: None,
            error: None,
            transaction: None,
            running: false,
            ..self
        }
    }

    /// Whether a generation is the one that runs.
    pub open spec fn awaits(self, generation: u64) -> bool {
        self.phase == InlineAssistPhase::Generating && self.generation == generation
    }
}

/// The number of the generation after another; zero is never one.
pub open spec fn next_generation(generation: u64) -> u64 {
    if generation == u64::MAX {
        1
    } else {
        (generation + 1) as u64
    }
}

/// The state of the inline assistant.
pub struct InlineAssistantState {
    original: String,
    prompt: LinePrompt,
    phase: InlineAssistPhase,
    generation: u64,
    generated: String,
    replacement: Option<String>,
    model_name: Option<String>,
    error: Option<String>,
    transaction: Option<u64>,
    running: bool,
}

impl View for InlineAssistantState {
    type V = Assist;

    closed spec fn view(&self) -> Assist {
        Assist {
            original: self.original@,
            prompt: self.prompt@,
            phase: self.phase,
            generation: self.generation,
            generated: self.generated@,
            replacement: optional(self.replacement),
            model_name: optional(self.model_name),
            error: optional(self.error),
            transaction: self.transaction,
            running: self.running,
        }
    }
}

impl InlineAssistantState {
    /// Starts with the text of the rows that are to be rewritten.
    pub fn capture(target: InlineAssistTarget, original: String) -> (result: Result<
        Self,
        InlineAssistError,
    >)
        ensures
            match target_fault(target) {
                Some(fault) => result matches Err(error) && error == fault,
                None => result matches Ok(state) && state@ == (Assist {
                    original: original@,
                    prompt: Line { text: Seq::empty(), position: 0 },
                    phase: InlineAssistPhase::Prompt,
                    generation: 0,
                    generated: Seq::empty(),
                    replacement: None,
                    model_name: None,
                    error: None,
                    transaction: None,
                    running: false,
                }),
            },
    {
        if target.read_only {
            return Err(InlineAssistError::EditorIsReadOnly);
        }
        if target.sources == 0 {
            return Err(InlineAssistError::OutsideASource);
        }
        if target.sources > 1 {
            return Err(InlineAssistError::ManySources);
        }
        if !target.present {
            return Err(InlineAssistError::SourceIsGone);
        }
        if !target.writable {
            return Err(InlineAssistError::SourceIsReadOnly);
        }
        let generated = String::new();
        assert(generated@ =~= Seq::<char>::empty());
        Ok(
            InlineAssistantState {
                original,
                prompt: LinePrompt::new(),
                phase: InlineAssistPhase::Prompt,
                generation: 0,
                generated,
                replacement: None,
                model_name: None,
                error: None,
                transaction: None,
                running: false,
            },
        )
    }

    pub fn phase(&self) -> (phase: InlineAssistPhase)
        ensures
            phase == self@.phase,
    {
        self.phase
    }

    pub fn generation(&self) -> (generation: u64)
        ensures
            generation == self@.generation,
    {
        self.generation
    }

    /// Whether a generation task is to be kept alive.
    pub fn is_running(&self) -> (running: bool)
        ensures
            running == self@.running,
    {
        self.running
    }

    pub fn handle_key(&mut self, key: &KeyEvent) -> (input: InlineAssistInput)
        ensures
            (final(self)@, input) == old(self)@.after_key(*key),
    {
        if key.kind == KeyEventKind::Release {
            return InlineAssistInput::Consumed;
        }
        let plain = key.modifiers == KeyModifiers::none();
        let enter = plain && key.code == KeyCode::Enter;
        let escape = plain && key.code == KeyCode::Esc;
        match self.phase {
            InlineAssistPhase::Prompt => {
                let action = self.prompt.handle_key(key);
                match action {
                    PromptAction::Submit | PromptAction::AlternateSubmit => {
                        let instruction = trim(self.prompt.text());
                        if instruction.as_str().unicode_len() == 0 {
                            self.error = Some("enter an instruction".to_string());
                            InlineAssistInput::Consumed
                        } else {
                            InlineAssistInput::Start
                        }
                    },
                    PromptAction::Cancel => InlineAssistInput::Close,
                    PromptAction::Changed => {
                        self.error = None;
                        InlineAssistInput::Consumed
                    },
                    _ => InlineAssistInput::Consumed,
                }
            },
            InlineAssistPhase::Generating => if escape {
                InlineAssistInput::Close
            } else {
                InlineAssistInput::Consumed
            },
            InlineAssistPhase::Preview => if enter {
                InlineAssistInput::Accept
            } else if escape {
                InlineAssistInput::Reject
            } else {
                InlineAssistInput::Consumed
            },
            InlineAssistPhase::Failed => if enter {
                InlineAssistInput::Start
            } else if escape {
                InlineAssistInput::Close
            } else {
                InlineAssistInput::Consumed
            },
        }
    }

    pub fn handle_paste(&mut self, text: &str) -> (input: InlineAssistInput)
        ensures
            input == InlineAssistInput::Consumed,
            final(self)@ == (if old(self)@.phase == InlineAssistPhase::Prompt {
                Assist {
                    prompt: after_paste(old(self)@.prompt, text@).0,
                    error: None,
                    ..old(self)@
                }
            } else {
                old(self)@
            }),
    {
        if self.phase == InlineAssistPhase::Prompt {
            self.prompt.handle_paste(text);
            self.error = None;
        }
        InlineAssistInput::Consumed
    }

    /// Starts a generation: its number, and the instruction.
    pub fn begin_generation(&mut self) -> (result: (u64, String))
        ensures
            final(self)@ == old(self)@.begun(),
            result.0 == final(self)@.generation,
            result.1@ == old(self)@.prompt.text,
    {
        self.generation = if self.generation == u64::MAX {
            1
        } else {
            self.generation + 1
        };
        self.phase = InlineAssistPhase::Generating;
        self.generated = String::new();
        assert(self.generated@ =~= Seq::<char>::empty());
        self.replacement = None;
        self.model_name = None;
        self.error = None;
        self.transaction = None;
        self.running = false;
        (self.generation, self.prompt.text().to_string())
    }

    pub fn set_generation_task(&mut self, model_name: String)
        ensures
            final(self)@ == (Assist {
                model_name: Some(model_name@),
                running: true,
                ..old(self)@
            }),
    {
        self.model_name = Some(model_name);
        self.running = true;
    }

    /// Takes more text of the generation that runs.
    pub fn append_chunk(&mut self, generation: u64, chunk: &str) -> (taken: bool)
        ensures
            taken == old(self)@.awaits(generation),
            final(self)@ == (if taken {
                Assist { generated: old(self)@.generated + chunk@, ..old(self)@ }
            } else {
                old(self)@
            }),
    {
        if self.phase != InlineAssistPhase::Generating || self.generation != generation {
            return false;
        }
        self.generated.append(chunk);
        true
    }

    /// Takes the end of a generation.
    pub fn finish(&mut self, generation: u64, result: Result<String, String>) -> (finish: Finish)
        ensures
            !old(self)@.awaits(generation) ==> finish is Stale && final(self)@ == old(self)@,
            old(self)@.awaits(generation) ==> match result {
                Err(error) => finish is Failed && final(self)@ == (Assist {
                    phase: InlineAssistPhase::Failed,
                    error: Some(error@),
                    running: false,
                    ..old(self)@
                }),
                Ok(response) => finish matches Finish::Replace(text) && text@ == without_fence(
                    response@,
                ) && final(self)@ == (Assist { running: false, ..old(self)@ }),
            },
    {
        if self.phase != InlineAssistPhase::Generating || self.generation != generation {
            return Finish::Stale;
        }
        self.running = false;
        match result {
            Ok(response) => Finish::Replace(strip_markdown_fence(response)),
            Err(error) => {
                self.phase = InlineAssistPhase::Failed;
                self.error = Some(error);
                Finish::Failed
            },
        }
    }

    /// Whether the text may be replaced: it must still be the original.
    pub fn check_source(&self, current: &str) -> (result: Result<(), InlineAssistError>)
        ensures
            result == (if current@ == self@.original {
                Ok::<(), InlineAssistError>(())
            } else {
                Err(InlineAssistError::SourceChanged)
            }),
    {
        if same_text(current, self.original.as_str()) {
            Ok(())
        } else {
            Err(InlineAssistError::SourceChanged)
        }
    }

    /// Shows the replacement once it stands in the document.
    pub fn show_preview(&mut self, replacement: String, transaction: Option<u64>) -> (result: Result<
        (),
        InlineAssistError,
    >)
        ensures
            match transaction {
                None => result == Err::<(), InlineAssistError>(InlineAssistError::NoTransaction)
                    && final(self)@ == old(self)@,
                Some(_) => result is Ok && final(self)@ == (Assist {
                    generated: replacement@,
                    replacement: Some(replacement@),
                    transaction,
                    phase: InlineAssistPhase::Preview,
                    ..old(self)@
                }),
            },
    {
        if transaction.is_none() {
            return Err(InlineAssistError::NoTransaction);
        }
        self.generated = replacement.clone();
        self.replacement = Some(replacement);
        self.transaction = transaction;
        self.phase = InlineAssistPhase::Preview;
        Ok(())
    }

    pub fn fail(&mut self, error: String)
        ensures
            final(self)@ == (Assist {
                running: false,
                phase: InlineAssistPhase::Failed,
                error: Some(error@),
                ..old(self)@
            }),
    {
        self.running = false;
        self.phase = InlineAssistPhase::Failed;
        self.error = Some(error);
    }

    /// Gives up the preview: the transaction that is to be undone, if any.
    pub fn reject(&mut self) -> (transaction: Option<u64>)
        ensures
            transaction == old(self)@.transaction,
            final(self)@ == (Assist { running: false, transaction: None, ..old(self)@ }),
    {
        self.running = false;
        let transaction = self.transaction;
        self.transaction = None;
        transaction
    }

    pub fn cancel(&mut self)
        ensures
            final(self)@ == (Assist { running: false, ..old(self)@ }),
    {
        self.running = false;
    }

    pub fn has_status_cursor(&self) -> (result: bool)
        ensures
            result == (self@.phase == InlineAssistPhase::Prompt),
    {
        self.phase == InlineAssistPhase::Prompt
    }
}

/// What came of undoing the preview.
pub fn undo_outcome(undone: bool) -> (result: Result<(), InlineAssistError>)
    ensures
        result == (if undone {
            Ok::<(), InlineAssistError>(())
        } else {
            Err(InlineAssistError::NotUndoable)
        }),
{
    if undone {
        Ok(())
    } else {
        Err(InlineAssistError::NotUndoable)
    }
}

/// A response without the fence of a Markdown code block around it; one that
/// is not fenced whole stays as it is.
pub open spec fn without_fence(response: Seq<char>) -> Seq<char> {
    let inner = trimmed(response);
    let newline = first_index(inner, '\n');
    if !starts(inner, "```"@) || !ends(inner, "```"@) || newline >= inner.len() {
        response
    } else {
        let body = inner.subrange(newline + 1, inner.len() - 3);
        if body.len() > 0 && body.last() == '\n' {
            body.drop_last()
        } else {
            body
        }
    }
}

proof fn lemma_fence_ends_behind_line(inner: Seq<char>)
    requires
        ends(inner, "```"@),
        first_index(inner, '\n') < inner.len(),
    ensures
        0 <= first_index(inner, '\n') < inner.len() - 3,
{
    reveal_strlit("```");
    lemma_first_index(inner, '\n');
    let newline = first_index(inner, '\n');
    let tail = inner.skip(inner.len() - 3);
    if newline >= inner.len() - 3 {
        let k = newline - (inner.len() - 3);
        assert(tail[k] == inner[newline]);
        assert("```"@[k] == '`');
    }
}

/// Takes the fence of a Markdown code block off a response.
pub fn strip_markdown_fence(response: String) -> (result: String)
    ensures
        result@ == without_fence(response@),
{
    let inner = trim(response.as_str());
    if !starts_with(inner.as_str(), "```") || !ends_with(inner.as_str(), "```") {
        return response;
    }
    let chars = chars_of(inner.as_str());
    let newline: usize = find_char(&chars, 0, '\n');
    assert(chars@.skip(0) =~= inner@);
    if newline == chars.len() {
        return response;
    }
    proof {
        lemma_fence_ends_behind_line(inner@);
    }
    let end: usize = chars.len() - 3;
    let ghost body = inner@.subrange(newline + 1, inner@.len() - 3);
    if end > newline + 1 && chars[end - 1] == '\n' {
        let result = string_of(&chars, newline + 1, end - 1);
        assert(body.last() == '\n');
        assert(result@ =~= body.drop_last());
        result
    } else {
        string_of(&chars, newline + 1, end)
    }
}

/// A line of a preview, cut off where it is too long.
pub fn bounded_line(line: &str) -> (result: String)
    ensures
        result@ == bounded(line@, MAX_PREVIEW_LINE_CHARS as int),
{
    bound(line, MAX_PREVIEW_LINE_CHARS)
}

/// Whether the instruction is to delete the text.
pub fn is_delete_instruction(instruction: &str) -> (result: bool)
    ensures
        result == same_folded(trimmed(instruction@), "delete"@),
{
    let inner = trim(instruction);
    same_ignoring_case(inner.as_str(), "delete")
}

/// A text in pieces of so many characters.
pub open spec fn chunks(s: Seq<char>, size: int) -> Seq<Seq<char>>
    decreases s.len(),
{
    if s.len() == 0 || size <= 0 {
        Seq::empty()
    } else if s.len() <= size {
        seq![s]
    } else {
        seq![s.take(size)] + chunks(s.skip(size), size)
    }
}

/// A response in the pieces in which it is streamed.
pub fn response_chunks(response: &str) -> (result: Vec<String>)
    ensures
        texts(result@) == chunks(response@, 8),
{
    let chars = chars_of(response);
    let mut result: Vec<String> = Vec::new();
    let mut from: usize = 0;
    assert(chars@.skip(0) =~= response@);
    assert(texts(result@) + chunks(response@, 8) =~= chunks(response@, 8));
    while from < chars.len()
        invariant
            from <= chars@.len(),
            chars@ == response@,
            chunks(response@, 8) == texts(result@) + chunks(chars@.skip(from as int), 8),
        decreases chars@.len() - from,
    {
        let ghost rest = chars@.skip(from as int);
        let ghost before = texts(result@);
        let to: usize = if chars.len() - from > 8 {
            from + 8
        } else {
            chars.len()
        };
        let piece = string_of(&chars, from, to);
        proof {
            if rest.len() > 8 {
                assert(piece@ =~= rest.take(8));
                assert(rest.skip(8) =~= chars@.skip(to as int));
            } else {
                assert(piece@ =~= rest);
                assert(chunks(chars@.skip(to as int), 8) =~= Seq::<Seq<char>>::empty());
            }
        }
        result.push(piece);
        proof {
            assert(texts(result@) =~= before.push(piece@));
            assert(before + chunks(rest, 8) =~= texts(result@) + chunks(
                chars@.skip(to as int),
                8,
            ));
        }
        from = to;
    }
    assert(texts(result@) =~= texts(result@) + chunks(chars@.skip(from as int), 8));
    result
}

/// The number of columns that a text takes.
pub uninterp spec fn columns_of(s: Seq<char>) -> usize;

/// `UnicodeWidthStr::width`: Unicode's widths, which depend on the text alone;
/// what they are stays unsaid.
#[verifier::external_body]
pub(crate) fn columns(text: &str) -> (width: usize)
    ensures
        width == columns_of(text@),
{
    UnicodeWidthStr::width(text)
}

/// What became of a line.
#[derive(Clone, Copy, Debug, PartialEq, Eq, Structural)]
pub enum ChangeKind {
    Delete,
    Insert,
    Equal,
}

/// A line of one text or of both.
#[derive(Clone, Debug, PartialEq, Eq)]
pub struct LineChange {
    pub kind: ChangeKind,
    pub text: String,
}

/// The plain values of some [`LineChange`]s.
pub open spec fn change_list(list: Seq<LineChange>) -> Seq<(ChangeKind, Seq<char>)> {
    Seq::new(list.len(), |i: int| (list[i].kind, list[i].text@))
}

/// The lines of two texts, with what became of each.
pub uninterp spec fn line_changes(old_text: Seq<char>, new_text: Seq<char>) -> Seq<
    (ChangeKind, Seq<char>),
>;

/// `TextDiff::from_lines` and `TextDiff::iter_all_changes`: the lines of both
/// texts, each with its tag. Which of several shortest lists of changes comes
/// depends on the texts alone; what it is stays unsaid.
#[verifier::external_body]
fn diff_lines(old_text: &str, new_text: &str) -> (list: Vec<LineChange>)
    ensures
        change_list(list@) == line_changes(old_text@, new_text@),
{
    let diff = TextDiff::from_lines(old_text, new_text);
    diff.iter_all_changes().map(|change| {
        let kind = match change.tag() {
            ChangeTag::Delete => ChangeKind::Delete,
            ChangeTag::Insert => ChangeKind::Insert,
            ChangeTag::Equal => ChangeKind::Equal,
        };
        LineChange { kind, text: change.value().to_owned() }
    }).collect()
}

/// The row for a line of the preview.
pub open spec fn change_row(change: (ChangeKind, Seq<char>)) -> RowText {
    let mark = match change.0 {
        ChangeKind::Delete => "-"@,
        ChangeKind::Insert => "+"@,
        ChangeKind::Equal => " "@,
    };
    row(
        mark + " "@ + bounded(without_end(change.1, '\n'), MAX_PREVIEW_LINE_CHARS as int),
        change.0 == ChangeKind::Insert,
    )
}

/// The rows for the first lines of the preview.
pub open spec fn change_rows(list: Seq<(ChangeKind, Seq<char>)>, limit: int) -> Seq<RowText> {
    Seq::new(least(list.len() as int, limit) as nat, |i: int| change_row(list[i]))
}

/// Adds the rows for the first lines of the preview.
pub fn push_changes(rows: &mut Vec<OverlayRow>, list: &Vec<LineChange>, limit: usize)
    ensures
        row_texts(final(rows)@) == row_texts(old(rows)@) + change_rows(
            change_list(list@),
            limit as int,
        ),
{
    let ghost before = row_texts(rows@);
    let ghost all = change_rows(change_list(list@), limit as int);
    let count: usize = if list.len() < limit {
        list.len()
    } else {
        limit
    };
    let mut i: usize = 0;
    assert(before + all.take(0) =~= before);
    while i < count
        invariant
            i <= count <= list@.len(),
            count == all.len(),
            all == change_rows(change_list(list@), limit as int),
            row_texts(rows@) == before + all.take(i as int),
        decreases count - i,
    {
        let change = &list[i];
        let (mark, enabled) = match change.kind {
            ChangeKind::Delete => ("-", false),
            ChangeKind::Insert => ("+", true),
            ChangeKind::Equal => (" ", false),
        };
        let mut text = mark.to_string();
        text.append(" ");
        let line = trim_end_char(change.text.as_str(), '\n');
        text.append(bounded_line(line.as_str()).as_str());
        proof {
            assert(change_list(list@)[i as int] == (change.kind, change.text@));
            assert(all[i as int] == row(text@, enabled));
        }
        push_row(rows, text, enabled);
        i += 1;
        assert(row_texts(rows@) =~= before + all.take(i as int));
    }
    assert(all.take(i as int) =~= all);
}

/// Rows for some lines, each behind a mark.
pub open spec fn line_rows(mark: Seq<char>, list: Seq<Seq<char>>, enabled: bool) -> Seq<RowText> {
    Seq::new(
        list.len(),
        |i: int| row(mark + bounded(list[i], MAX_PREVIEW_LINE_CHARS as int), enabled),
    )
}

fn push_lines(
    rows: &mut Vec<OverlayRow>,
    mark: &str,
    list: &Vec<String>,
    from: usize,
    to: usize,
    enabled: bool,
)
    requires
        from <= to <= list@.len(),
    ensures
        row_texts(final(rows)@) == row_texts(old(rows)@) + line_rows(
            mark@,
            texts(list@).subrange(from as int, to as int),
            enabled,
        ),
{
    let ghost before = row_texts(rows@);
    let ghost part = texts(list@).subrange(from as int, to as int);
    let ghost all = line_rows(mark@, part, enabled);
    let mut i: usize = from;
    assert(before + all.take(0) =~= before);
    while i < to
        invariant
            from <= i <= to <= list@.len(),
            part == texts(list@).subrange(from as int, to as int),
            all == line_rows(mark@, part, enabled),
            row_texts(rows@) == before + all.take(i - from),
        decreases to - i,
    {
        let mut text = mark.to_string();
        text.append(bounded_line(list[i].as_str()).as_str());
        assert(part[i - from] == list@[i as int]@);
        assert(all[i - from] == row(text@, enabled));
        push_row(rows, text, enabled);
        i += 1;
        assert(row_texts(rows@) =~= before + all.take(i - from));
    }
    assert(all.take(i - from) =~= all);
}

/// A word and a name, where there is a name.
pub open spec fn named(word: Seq<char>, name: Option<Seq<char>>) -> Seq<char> {
    match name {
        Some(name) => word + name,
        None => Seq::empty(),
    }
}

fn push_named(text: &mut String, word: &str, name: &Option<String>)
    ensures
        final(text)@ == old(text)@ + named(word@, optional(*name)),
{
    match name {
        Some(name) => {
            let mut more = word.to_string();
            more.append(name.as_str());
            text.append(more.as_str());
        },
        None => {
            assert(old(text)@ + Seq::<char>::empty() =~= old(text)@);
        },
    }
}

/// The error, in words.
pub open spec fn error_text(error: Option<Seq<char>>) -> Seq<char> {
    match error {
        Some(error) => error,
        None => "unknown error"@,
    }
}

/// What stands before the status of the assistant.
pub open spec fn lead(message: Option<&str>) -> Seq<char> {
    match message {
        Some(message) => message@ + "  |  "@,
        None => Seq::empty(),
    }
}

impl Assist {
    /// The rows under the instruction.
    pub open spec fn detail_rows(self) -> Seq<RowText> {
        match self.phase {
            InlineAssistPhase::Prompt => {
                let shown = lines(self.original);
                seq![
                    row(
                        "The current line or selected complete lines will be rewritten."@,
                        false,
                    ),
                ] + line_rows("  "@, shown.take(least(shown.len() as int, 12)), false)
            },
            InlineAssistPhase::Generating => {
                let shown = lines(self.generated);
                seq![
                    row(
                        "Streaming"@ + named(" from "@, self.model_name) + "\u{2026}"@,
                        false,
                    ),
                ] + line_rows(
                    "+ "@,
                    shown.skip(
                        if shown.len() > 24 {
                            shown.len() - 24
                        } else {
                            0
                        },
                    ),
                    true,
                )
            },
            InlineAssistPhase::Preview => seq![row("Preview (not yet accepted):"@, false)]
                + change_rows(
                line_changes(
                    self.original,
                    match self.replacement {
                        Some(replacement) => replacement,
                        None => Seq::empty(),
                    },
                ),
                MAX_PREVIEW_ROWS - 2,
            ),
            InlineAssistPhase::Failed => seq![row(error_text(self.error), false)],
        }
    }

    /// What the assistant shows over the document.
    pub open spec fn overlay(self) -> OverlayView {
        OverlayView {
            title: match self.phase {
                InlineAssistPhase::Prompt => "Inline Assistant"@,
                InlineAssistPhase::Generating => "Inline Assistant \u{b7} Streaming"@,
                InlineAssistPhase::Preview => "Inline Assistant \u{b7} Diff Preview"@,
                InlineAssistPhase::Failed => "Inline Assistant \u{b7} Error"@,
            },
            rows: seq![row("Instruction: "@ + self.prompt.text, true)] + self.detail_rows(),
            selected: None,
        }
    }

    /// The status of the assistant.
    pub open spec fn status(self, message: Option<&str>) -> Seq<char> {
        match self.phase {
            InlineAssistPhase::Prompt => lead(message) + "Inline Assistant: "@ + self.prompt.text
                + "  Enter generate  Esc cancel"@ + named("  |  "@, self.error),
            InlineAssistPhase::Generating => lead(message) + "Inline Assistant generating"@ + named(
                " with "@,
                self.model_name,
            ) + "\u{2026} "@ + decimal(utf8_len(self.generated)) + " bytes  Esc cancel"@,
            InlineAssistPhase::Preview => lead(message)
                + "Inline Assistant preview  Enter accept  Esc reject  Ctrl-Z undo after accept"@,
            InlineAssistPhase::Failed => lead(message) + "Inline Assistant failed: "@ + error_text(
                self.error,
            ) + "  Enter retry  Esc close"@,
        }
    }

    /// The column of the cursor in the status.
    pub open spec fn status_cursor(self, message: Option<&str>) -> int {
        match self.phase {
            InlineAssistPhase::Prompt => word(
                columns_of(lead(message) + "Inline Assistant: "@) + columns_of(
                    self.prompt.text.take(self.prompt.position),
                ),
            ),
            _ => 0,
        }
    }
}

impl InlineAssistantState {
    /// The status of the assistant, and the column of the cursor in it.
    pub fn status(&self, message: Option<&str>) -> (status: (String, usize))
        ensures
            status.0@ == self@.status(message),
            status.1 == self@.status_cursor(message),
    {
        let mut text = String::new();
        if let Some(message) = message {
            text.append(message);
            text.append("  |  ");
        }
        assert(text@ =~= lead(message));
        match self.phase {
            InlineAssistPhase::Prompt => {
                text.append("Inline Assistant: ");
                let prefix: usize = columns(text.as_str());
                let chars = chars_of(self.prompt.text());
                let position: usize = self.prompt.position();
                let before = string_of(&chars, 0, position);
                assert(before@ =~= self@.prompt.text.take(self@.prompt.position));
                let cursor: usize = prefix.saturating_add(columns(before.as_str()));
                text.append(self.prompt.text());
                text.append("  Enter generate  Esc cancel");
                push_named(&mut text, "  |  ", &self.error);
                (text, cursor)
            },
            InlineAssistPhase::Generating => {
                text.append("Inline Assistant generating");
                push_named(&mut text, " with ", &self.model_name);
                text.append("\u{2026} ");
                push_decimal(&mut text, byte_len(self.generated.as_str()) as u64);
                text.append(" bytes  Esc cancel");
                (text, 0)
            },
            InlineAssistPhase::Preview => {
                text.append(
                    "Inline Assistant preview  Enter accept  Esc reject  Ctrl-Z undo after accept",
                );
                (text, 0)
            },
            InlineAssistPhase::Failed => {
                text.append("Inline Assistant failed: ");
                match &self.error {
                    Some(error) => text.append(error.as_str()),
                    None => text.append("unknown error"),
                }
                text.append("  Enter retry  Esc close");
                (text, 0)
            },
        }
    }

    fn push_details(&self, rows: &mut Vec<OverlayRow>)
        ensures
            row_texts(final(rows)@) == row_texts(old(rows)@) + self@.detail_rows(),
    {
        let ghost before = row_texts(rows@);
        match self.phase {
            InlineAssistPhase::Prompt => {
                push_row(
                    rows,
                    "The current line or selected complete lines will be rewritten.".to_string(),
                    false,
                );
                let list = lines_of(self.original.as_str());
                let count: usize = if list.len() < 12 {
                    list.len()
                } else {
                    12
                };
                push_lines(rows, "  ", &list, 0, count, false);
                assert(texts(list@).subrange(0, count as int) =~= lines(self@.original).take(
                    count as int,
                ));
            },
            InlineAssistPhase::Generating => {
                let mut text = "Streaming".to_string();
                push_named(&mut text, " from ", &self.model_name);
                text.append("\u{2026}");
                push_row(rows, text, false);
                let list = lines_of(self.generated.as_str());
                let from: usize = list.len().saturating_sub(24);
                push_lines(rows, "+ ", &list, from, list.len(), true);
                assert(texts(list@).subrange(from as int, list@.len() as int) =~= lines(
                    self@.generated,
                ).skip(from as int));
            },
            InlineAssistPhase::Preview => {
                push_row(rows, "Preview (not yet accepted):".to_string(), false);
                let changes = match &self.replacement {
                    Some(replacement) => diff_lines(self.original.as_str(), replacement.as_str()),
                    None => {
                        proof {
                            reveal_strlit("");
                            assert(""@ =~= Seq::<char>::empty());
                        }
                        diff_lines(self.original.as_str(), "")
                    },
                };
                push_changes(rows, &changes, MAX_PREVIEW_ROWS - 2);
            },
            InlineAssistPhase::Failed => {
                let text = match &self.error {
                    Some(error) => error.clone(),
                    None => "unknown error".to_string(),
                };
                push_row(rows, text, false);
            },
        }
        assert(row_texts(rows@) =~= before + self@.detail_rows());
    }

    /// What the assistant shows over the document.
    pub fn overlay(&self) -> (overlay: OverlaySnapshot)
        ensures
            overlay@ == self@.overlay(),
    {
        let mut rows: Vec<OverlayRow> = Vec::new();
        let mut text = "Instruction: ".to_string();
        text.append(self.prompt.text());
        push_row(&mut rows, text, true);
        assert(row_texts(rows@) =~= seq![row(text@, true)]);
        self.push_details(&mut rows);
        let title = match self.phase {
            InlineAssistPhase::Prompt => "Inline Assistant",
            InlineAssistPhase::Generating => "Inline Assistant \u{b7} Streaming",
            InlineAssistPhase::Preview => "Inline Assistant \u{b7} Diff Preview",
            InlineAssistPhase::Failed => "Inline Assistant \u{b7} Error",
        };
        OverlaySnapshot { title: title.to_string(), rows, selected: None }
    }
}

/// However long the texts are, the overlay has no more rows than fit.
pub proof fn the_overlay_is_bounded(assist: Assist)
    ensures
        assist.overlay().rows.len() <= MAX_PREVIEW_ROWS,
{
}

/// A generation that starts has another number than the one before, and its
/// number is not zero: what still comes of the one before is not taken.
pub proof fn earlier_generations_are_not_taken(assist: Assist)
    ensures
        assist.begun().generation > 0,
        assist.begun().awaits(assist.begun().generation),
        !assist.begun().awaits(assist.generation),
{
}

/// The pieces of a text put together are the text.
pub open spec fn joined_chunks(list: Seq<Seq<char>>) -> Seq<char>
    decreases list.len(),
{
    if list.len() == 0 {
        Seq::empty()
    } else {
        list[0] + joined_chunks(list.drop_first())
    }
}

/// A response that is streamed in pieces arrives whole.
pub proof fn streamed_responses_arrive_whole(s: Seq<char>, size: int)
    requires
        size > 0,
    ensures
        joined_chunks(chunks(s, size)) == s,
        forall|i: int|
            0 <= i < chunks(s, size).len() ==> 0 < (#[trigger] chunks(s, size)[i]).len() <= size,
    decreases s.len(),
{
    let list = chunks(s, size);
    reveal_with_fuel(joined_chunks, 2);
    if s.len() == 0 {
    } else if s.len() <= size {
        assert(list.drop_first() =~= Seq::<Seq<char>>::empty());
        assert(s + Seq::<char>::empty() =~= s);
    } else {
        streamed_responses_arrive_whole(s.skip(size), size);
        let rest = chunks(s.skip(size), size);
        assert(list.drop_first() =~= rest);
        assert(s.take(size) + s.skip(size) =~= s);
        assert forall|i: int| 0 <= i < list.len() implies 0 < (#[trigger] list[i]).len()
            <= size by {
            if i > 0 {
                assert(list[i] == rest[i - 1]);
            }
        }
    }
}

/// What is known of the model that is to write.
#[derive(Debug, PartialEq, Eq)]
pub enum ModelChoice {
    /// None is configured.
    Missing,
    /// The request to it could not be written, for a reason.
    NoRequest(String),
    /// The name of the one that is asked.
    Ready(String),
}

/// Where the text of a generation comes from.
pub enum Writing {
    /// It was given beforehand, in these pieces.
    Given(Seq<Seq<char>>),
    /// There is none: what is there is deleted.
    Nothing,
    /// A model writes it.
    Model,
}

/// What came of the last step of a generation.
#[derive(Debug, PartialEq, Eq)]
pub enum GenerationEvent {
    Started,
    /// The model answers, or does not.
    Opened(Result<(), String>),
    /// The model wrote more, or failed.
    Part(Result<String, String>),
    /// The model has written everything.
    Ended,
    /// The text was passed on.
    Sent,
    /// Nobody takes the text any more.
    Closed(String),
    /// The time is over.
    Waited,
}

/// The next step of a generation.
#[derive(Debug, PartialEq, Eq)]
pub enum GenerationAction {
    /// Ask the model.
    Open,
    /// Wait for what the model writes next.
    Next,
    /// Pass a text on.
    Send(String),
    /// Wait for so many milliseconds.
    Wait(u64),
    /// Pass the outcome on: it is over.
    Finish(Result<String, String>),
    /// It is over, and nobody is told.
    Stop,
}

/// The plain values of a [`GenerationAction`].
pub enum Deed {
    Open,
    Next,
    Send(Seq<char>),
    Wait(u64),
    Done(Seq<char>),
    Failed(Seq<char>),
    Stop,
}

impl View for GenerationAction {
    type V = Deed;

    open spec fn view(&self) -> Deed {
        match *self {
            GenerationAction::Open => Deed::Open,
            GenerationAction::Next => Deed::Next,
            GenerationAction::Send(text) => Deed::Send(text@),
            GenerationAction::Wait(time) => Deed::Wait(time),
            GenerationAction::Finish(Ok(text)) => Deed::Done(text@),
            GenerationAction::Finish(Err(error)) => Deed::Failed(error@),
            GenerationAction::Stop => Deed::Stop,
        }
    }
}

/// How far a generation is: the number of pieces that were passed on, and the
/// text so far.
pub struct Flow {
    pub writing: Writing,
    pub next: int,
    pub complete: Seq<char>,
}

impl Flow {
    /// A generation that starts.
    pub open spec fn new(writing: Writing) -> Flow {
        Flow { writing, next: 0, complete: Seq::empty() }
    }

    /// The next of the pieces that were given, or the end.
    pub open spec fn offered(self, parts: Seq<Seq<char>>) -> (Flow, Deed) {
        if self.next < parts.len() {
            let part = parts[self.next];
            (
                Flow { next: self.next + 1, complete: self.complete + part, ..self },
                Deed::Send(part),
            )
        } else {
            (self, Deed::Done(self.complete))
        }
    }

    /// What comes next.
    pub open spec fn after(self, event: GenerationEvent) -> (Flow, Deed) {
        match self.writing {
            Writing::Given(parts) => match event {
                GenerationEvent::Started | GenerationEvent::Waited => self.offered(parts),
                GenerationEvent::Sent => if self.next > 0 && parts[self.next - 1].len() >= 8 {
                    (self, Deed::Wait(5))
                } else {
                    self.offered(parts)
                },
                _ => (self, Deed::Stop),
            },
            Writing::Nothing => match event {
                GenerationEvent::Started => (self, Deed::Done(self.complete)),
                _ => (self, Deed::Stop),
            },
            Writing::Model => match event {
                GenerationEvent::Started => (self, Deed::Open),
                GenerationEvent::Opened(Ok(())) => (self, Deed::Next),
                GenerationEvent::Opened(Err(error)) => (self, Deed::Failed(error@)),
                GenerationEvent::Part(Ok(part)) => (
                    Flow { complete: self.complete + part@, ..self },
                    Deed::Send(part@),
                ),
                GenerationEvent::Part(Err(error)) => (self, Deed::Failed(error@)),
                GenerationEvent::Ended => (self, Deed::Done(self.complete)),
                GenerationEvent::Sent => (self, Deed::Next),
                GenerationEvent::Closed(cause) => (
                    self,
                    Deed::Failed(
                        "terminal event loop closed during inline generation: "@ + cause@,
                    ),
                ),
                GenerationEvent::Waited => (self, Deed::Stop),
            },
        }
    }

    /// How far a generation is after some events.
    pub open spec fn after_all(self, events: Seq<GenerationEvent>) -> Flow
        decreases events.len(),
    {
        if events.len() == 0 {
            self
        } else {
            self.after_all(events.drop_last()).after(events.last()).0
        }
    }

    /// The texts that are passed on during some events.
    pub open spec fn sent(self, events: Seq<GenerationEvent>) -> Seq<char>
        decreases events.len(),
    {
        if events.len() == 0 {
            Seq::empty()
        } else {
            let before = self.sent(events.drop_last());
            match self.after_all(events.drop_last()).after(events.last()).1 {
                Deed::Send(text) => before + text,
                _ => before,
            }
        }
    }
}

/// Whatever happens, a generation ends with the text that was passed on piece
/// by piece.
pub proof fn generations_end_with_what_was_sent(
    writing: Writing,
    events: Seq<GenerationEvent>,
    event: GenerationEvent,
)
    ensures
        Flow::new(writing).after_all(events).complete == Flow::new(writing).sent(events),
        Flow::new(writing).after_all(events).after(event).1 matches Deed::Done(text) ==> text
            == Flow::new(writing).sent(events),
    decreases events.len(),
{
    if events.len() > 0 {
        generations_end_with_what_was_sent(writing, events.drop_last(), events.last());
    }
}

proof fn lemma_joined_push(list: Seq<Seq<char>>, n: int)
    requires
        0 <= n < list.len(),
    ensures
        joined_chunks(list.take(n + 1)) == joined_chunks(list.take(n)) + list[n],
    decreases n,
{
    let front = list.take(n + 1);
    if n == 0 {
        assert(front.drop_first() =~= Seq::<Seq<char>>::empty());
        assert(list.take(0) =~= Seq::<Seq<char>>::empty());
        assert(list[0] + Seq::<char>::empty() =~= Seq::<char>::empty() + list[0]);
    } else {
        let rest = list.drop_first();
        lemma_joined_push(rest, n - 1);
        assert(front.drop_first() =~= rest.take(n));
        assert(list.take(n).drop_first() =~= rest.take(n - 1));
        assert(list[0] + (joined_chunks(rest.take(n - 1)) + rest[n - 1]) =~= list[0]
            + joined_chunks(rest.take(n - 1)) + rest[n - 1]);
    }
}

proof fn lemma_given(parts: Seq<Seq<char>>, events: Seq<GenerationEvent>)
    ensures
        ({
            let flow = Flow::new(Writing::Given(parts)).after_all(events);
            &&& flow.writing == Writing::Given(parts)
            &&& 0 <= flow.next <= parts.len()
            &&& flow.complete == joined_chunks(parts.take(flow.next))
        }),
    decreases events.len(),
{
    let start = Flow::new(Writing::Given(parts));
    if events.len() == 0 {
        assert(parts.take(0) =~= Seq::<Seq<char>>::empty());
    } else {
        lemma_given(parts, events.drop_last());
        let before = start.after_all(events.drop_last());
        if before.next < parts.len() {
            lemma_joined_push(parts, before.next);
        }
    }
}

/// A text that was given beforehand arrives whole, whatever happens on the
/// way, if the generation ends well.
pub proof fn given_texts_arrive_whole(
    response: Seq<char>,
    events: Seq<GenerationEvent>,
    event: GenerationEvent,
)
    ensures
        Flow::new(Writing::Given(chunks(response, 8))).after_all(events).after(
            event,
        ).1 matches Deed::Done(text) ==> text == response,
{
    let parts = chunks(response, 8);
    lemma_given(parts, events);
    streamed_responses_arrive_whole(response, 8);
    assert(parts.take(parts.len() as int) =~= parts);
}

/// Where the text comes from, and what is shown in place of the name of a
/// model; or why there is none. A text that was given beforehand comes first,
/// then the instruction to delete, then the model.
pub open spec fn started(
    fixture: Option<Seq<char>>,
    user_prompt: Seq<char>,
    model: ModelChoice,
) -> Result<(Seq<char>, Flow), Seq<char>> {
    match fixture {
        Some(response) => Ok(("fixture"@, Flow::new(Writing::Given(chunks(response, 8))))),
        None => if same_folded(trimmed(user_prompt), "delete"@) {
            Ok(("local delete"@, Flow::new(Writing::Nothing)))
        } else {
            match model {
                ModelChoice::Missing => Err(
                    "no inline assistant model is configured; use Agent /models or settings.json"@,
                ),
                ModelChoice::NoRequest(cause) => Err(
                    "generate Zed inline transformation prompt: "@ + cause@,
                ),
                ModelChoice::Ready(name) => Ok((name@, Flow::new(Writing::Model))),
            }
        },
    }
}

enum Source {
    Given,
    Nothing,
    Model,
}

/// A generation that runs: it says what to do next, and is told what came of
/// it.
pub struct Generation {
    source: Source,
    parts: Vec<String>,
    next: usize,
    complete: String,
}

impl View for Generation {
    type V = Flow;

    closed spec fn view(&self) -> Flow {
        Flow {
            writing: match self.source {
                Source::Given => Writing::Given(texts(self.parts@)),
                Source::Nothing => Writing::Nothing,
                Source::Model => Writing::Model,
            },
            next: self.next as int,
            complete: self.complete@,
        }
    }
}

impl Generation {
    #[verifier::type_invariant]
    spec fn bounded_parts(self) -> bool {
        self.next <= self.parts@.len()
    }

    fn offer(&mut self) -> (action: GenerationAction)
        ensures
            old(self)@.writing matches Writing::Given(parts) ==> (final(self)@, action@) == old(
                self,
            )@.offered(parts),
    {
        proof {
            use_type_invariant(&*self);
        }
        if self.next < self.parts.len() {
            let part = self.parts[self.next].clone();
            self.next = self.next + 1;
            let mut complete = self.complete.clone();
            complete.append(part.as_str());
            self.complete = complete;
            GenerationAction::Send(part)
        } else {
            GenerationAction::Finish(Ok(self.complete.clone()))
        }
    }

    fn after_given(&mut self, event: &GenerationEvent) -> (action: GenerationAction)
        requires
            old(self)@.writing is Given,
        ensures
            (final(self)@, action@) == old(self)@.after(*event),
    {
        proof {
            use_type_invariant(&*self);
        }
        match event {
            GenerationEvent::Started | GenerationEvent::Waited => self.offer(),
            GenerationEvent::Sent => {
                let full = self.next > 0 && self.parts[self.next - 1].as_str().unicode_len() >= 8;
                if full {
                    GenerationAction::Wait(5)
                } else {
                    self.offer()
                }
            },
            _ => GenerationAction::Stop,
        }
    }

    fn after_model(&mut self, event: GenerationEvent) -> (action: GenerationAction)
        requires
            old(self)@.writing is Model,
        ensures
            (final(self)@, action@) == old(self)@.after(event),
    {
        proof {
            use_type_invariant(&*self);
        }
        match event {
            GenerationEvent::Started => GenerationAction::Open,
            GenerationEvent::Opened(Ok(())) => GenerationAction::Next,
            GenerationEvent::Sent => GenerationAction::Next,
            GenerationEvent::Opened(Err(error)) => GenerationAction::Finish(Err(error)),
            GenerationEvent::Part(Err(error)) => GenerationAction::Finish(Err(error)),
            GenerationEvent::Part(Ok(part)) => {
                let mut complete = self.complete.clone();
                complete.append(part.as_str());
                self.complete = complete;
                GenerationAction::Send(part)
            },
            GenerationEvent::Ended => GenerationAction::Finish(Ok(self.complete.clone())),
            GenerationEvent::Closed(cause) => {
                let mut error =
                    "terminal event loop closed during inline generation: ".to_string();
                error.append(cause.as_str());
                GenerationAction::Finish(Err(error))
            },
            GenerationEvent::Waited => GenerationAction::Stop,
        }
    }

    /// Takes what came of the last step, and tells the next one.
    pub fn step(&mut self, event: GenerationEvent) -> (action: GenerationAction)
        ensures
            (final(self)@, action@) == old(self)@.after(event),
    {
        match self.source {
            Source::Given => self.after_given(&event),
            Source::Nothing => match event {
                GenerationEvent::Started => GenerationAction::Finish(Ok(self.complete.clone())),
                _ => GenerationAction::Stop,
            },
            Source::Model => self.after_model(event),
        }
    }
}

fn generation(source: Source, parts: Vec<String>) -> (generation: Generation)
    ensures
        generation@ == Flow::new(
            match source {
                Source::Given => Writing::Given(texts(parts@)),
                Source::Nothing => Writing::Nothing,
                Source::Model => Writing::Model,
            },
        ),
{
    let complete = String::new();
    assert(complete@ =~= Seq::<char>::empty());
    Generation { source, parts, next: 0, complete }
}

/// Starts a generation: what is shown in place of the name of a model, and the
/// steps to take.
pub fn start_completion(fixture: Option<String>, user_prompt: &str, model: ModelChoice) -> (result:
    Result<(String, Generation), String>)
    ensures
        match result {
            Ok((name, generation)) => started(optional(fixture), user_prompt@, model) == Ok::<
                (Seq<char>, Flow),
                Seq<char>,
            >((name@, generation@)),
            Err(error) => started(optional(fixture), user_prompt@, model) == Err::<
                (Seq<char>, Flow),
                Seq<char>,
            >(error@),
        },
{
    match fixture {
        Some(response) => {
            let parts = response_chunks(response.as_str());
            Ok(("fixture".to_string(), generation(Source::Given, parts)))
        },
        None => if is_delete_instruction(user_prompt) {
            Ok(("local delete".to_string(), generation(Source::Nothing, Vec::new())))
        } else {
            match model {
                ModelChoice::Missing => Err(
                    "no inline assistant model is configured; use Agent /models or settings.json".to_string(),
                ),
                ModelChoice::NoRequest(cause) => {
                    let mut error = "generate Zed inline transformation prompt: ".to_string();
                    error.append(cause.as_str());
                    Err(error)
                },
                ModelChoice::Ready(name) => Ok((name, generation(Source::Model, Vec::new()))),
            }
        },
    }
}

} // verus!
