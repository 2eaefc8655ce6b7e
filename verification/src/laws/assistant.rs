//! Laws of the inline assistant.

use vstd::prelude::*;

use crate::geometry::{least, Point};
use crate::inline_assistant::{
    change_row, change_rows, chunks, error_text, lead, scope, started, target_fault, without_fence,
    Assist, ChangeKind, Deed, Flow, GenerationEvent, InlineAssistPhase, InlineAssistTarget,
    ModelChoice, Writing, MAX_PREVIEW_LINE_CHARS,
};
use crate::input::{KeyCode, KeyEvent};
use crate::laws::text::{blank, repeated, trimming_takes_white_space_off_both_ends};
use crate::prompt::pressed_alone;
use crate::text::{
    bounded, decimal, ends, first_index, lemma_first_index, lines, same_folded, starts, trimmed, utf8_len,
    white, without_end,
};

verus! {

/// What is rewritten are whole lines, from that of the start to that of the
/// end; a line of which nothing is selected is not among them.
pub proof fn whole_lines_are_rewritten(start: Point, end: Point)
    requires
        start.reaches(end),
    ensures
        scope(start, end).0 == start.row,
        start.row <= scope(start, end).1 <= end.row,
        end.column > 0 || start.row == end.row ==> scope(start, end).1 == end.row,
        end.column == 0 && start.row < end.row ==> scope(start, end).1 == end.row - 1,
{
}

/// A place can be rewritten where nothing forbids it: it lies in one source,
/// which is there and can be written.
pub proof fn one_writable_source_is_needed(target: InlineAssistTarget)
    ensures
        target_fault(target) is None <==> !target.read_only && target.sources == 1 && target.present
            && target.writable,
        target.read_only ==> target_fault(target)->0 is EditorIsReadOnly,
        !target.read_only && target.sources == 0 ==> target_fault(target)->0 is OutsideASource,
        !target.read_only && target.sources > 1 ==> target_fault(target)->0 is ManySources,
        !target.read_only && target.sources == 1 && !target.present ==> target_fault(target)->0
            is SourceIsGone,
{
}

/// A key leads on where the phase lets it: Enter takes a preview or tries
/// again, Escape puts it back or closes; no other key does anything, and no
/// key changes what is there.
pub proof fn keys_lead_from_phase_to_phase(assist: Assist, key: KeyEvent)
    requires
        !(assist.phase is Prompt),
    ensures
        ({
            let (next, input) = assist.after_key(key);
            let enter = pressed_alone(key, KeyCode::Enter);
            let escape = pressed_alone(key, KeyCode::Esc);
            &&& next == assist
            &&& input is Accept ==> assist.phase is Preview && key.code is Enter
            &&& input is Reject ==> assist.phase is Preview && key.code is Esc
            &&& input is Start ==> assist.phase is Failed && key.code is Enter
            &&& input is Close ==> !(assist.phase is Preview) && key.code is Esc
            &&& enter && assist.phase is Preview ==> input is Accept
            &&& escape && assist.phase is Preview ==> input is Reject
            &&& enter && assist.phase is Failed ==> input is Start
            &&& escape && !(assist.phase is Preview) ==> input is Close
            &&& key.kind is Release ==> input is Consumed
        }),
{
}

/// While an instruction is typed keys change the instruction alone. Enter
/// starts with one that is not blank, and asks for one otherwise; Escape
/// closes.
pub proof fn instructions_are_typed_and_submitted(assist: Assist, key: KeyEvent)
    requires
        assist.phase is Prompt,
    ensures
        ({
            let (next, input) = assist.after_key(key);
            &&& next == (Assist { prompt: next.prompt, error: next.error, ..assist })
            &&& pressed_alone(key, KeyCode::Enter) && trimmed(next.prompt.text).len() > 0 ==> input
                is Start
            &&& pressed_alone(key, KeyCode::Enter) && trimmed(next.prompt.text).len() == 0
                ==> input is Consumed && next.error is Some
            &&& pressed_alone(key, KeyCode::Esc) ==> input is Close
            &&& !(input is Accept) && !(input is Reject)
            &&& input is Start ==> trimmed(next.prompt.text).len() > 0
        }),
{
}

/// A generation that begins has a number of its own and nothing of an earlier
/// one; what it is for stays.
pub proof fn generations_begin_afresh(assist: Assist)
    ensures
        ({
            let next = assist.begun();
            &&& next.phase is Generating
            &&& next.generation != assist.generation
            &&& next.generated.len() == 0
            &&& next.replacement is None && next.transaction is None && next.error is None
                && next.model_name is None
            &&& next.original == assist.original && next.prompt == assist.prompt
        }),
{
}

/// A text that starts and ends without white space, with white space around.
proof fn lemma_trimmed_between(front: Seq<char>, text: Seq<char>, end: Seq<char>)
    requires
        blank(front),
        blank(end),
        text.len() > 0,
        !white(text[0]),
        !white(text.last()),
    ensures
        trimmed(front + text + end) == text,
{
    let s = front + text + end;
    let (left, right) = trimming_takes_white_space_off_both_ends(s);
    let own = trimmed(s);
    assert(s[front.len() as int] == text[0]);
    assert(s[front.len() + text.len() - 1] == text[text.len() - 1]);
    if own.len() == 0 {
        assert(white(s[front.len() as int]));
    }
    if left.len() > front.len() {
        assert(left[front.len() as int] == s[front.len() as int]);
    }
    if left.len() < front.len() {
        assert(own[0] == s[left.len() as int]);
        assert(front[left.len() as int] == s[left.len() as int]);
    }
    if right.len() > end.len() {
        let i = front.len() + text.len() - 1;
        assert(right[i - left.len() - own.len()] == s[i]);
    }
    if right.len() < end.len() {
        let i = s.len() - right.len() - 1;
        assert(own[own.len() - 1] == s[i]);
        assert(end[i - front.len() - text.len()] == s[i]);
    }
    assert(own.len() == text.len());
    assert forall|i: int| 0 <= i < own.len() implies own[i] == text[i] by {
        assert(s[left.len() + i] == own[i]);
        assert(s[front.len() + i] == text[i]);
    }
    assert(own =~= text);
}

/// A fence around an answer is taken off, with what stands behind its opening,
/// the line break in front of its end, and the white space around it; what is
/// inside stays as it is.
pub proof fn fences_are_taken_off(
    front: Seq<char>,
    language: Seq<char>,
    body: Seq<char>,
    end: Seq<char>,
)
    requires
        blank(front),
        blank(end),
        !language.contains('\n'),
    ensures
        without_fence(
            front + (repeated('`', 3) + language.push('\n') + body.push('\n') + repeated('`', 3)) + end,
        ) == body,
{
    let fence = repeated('`', 3);
    let inner = fence + language.push('\n') + body.push('\n') + fence;
    let all = front + inner + end;
    reveal_strlit("```");
    assert("```"@ =~= fence);
    lemma_trimmed_between(front, inner, end);
    assert(inner.take(3) =~= fence);
    assert(inner.skip(inner.len() - 3) =~= fence);
    lemma_first_index(inner, '\n');
    let newline = first_index(inner, '\n');
    let at = 3 + language.len();
    assert(inner[at as int] == '\n');
    if newline < at {
        if newline < 3 {
            assert(inner[newline] == '`');
        } else {
            assert(language[newline - 3] == inner[newline]);
            assert(language.contains('\n'));
        }
    }
    let shown = inner.subrange(newline + 1, inner.len() - 3);
    assert(shown =~= body.push('\n'));
    assert(shown.drop_last() =~= body);
}

/// An answer without a fence at both ends is taken as it is.
pub proof fn answers_without_fences_are_kept(response: Seq<char>)
    requires
        !starts(trimmed(response), "```"@) || !ends(trimmed(response), "```"@)
            || !trimmed(response).contains('\n'),
    ensures
        without_fence(response) == response,
{
    let inner = trimmed(response);
    lemma_first_index(inner, '\n');
    if first_index(inner, '\n') < inner.len() {
        assert(inner.contains(inner[first_index(inner, '\n')]));
    }
}

/// A change is shown with a mark: a minus for a line that goes, a plus for one
/// that comes, and none for one that stays.
pub proof fn changes_are_marked(change: (ChangeKind, Seq<char>))
    ensures
        ({
            let shown = change_row(change);
            let line = bounded(without_end(change.1, '\n'), MAX_PREVIEW_LINE_CHARS as int);
            &&& shown.enabled <==> change.0 is Insert
            &&& shown.text.len() == 2 + line.len()
            &&& shown.text.skip(2) == line
            &&& shown.text[1] == ' '
            &&& shown.text[0] == match change.0 {
                ChangeKind::Delete => '-',
                ChangeKind::Insert => '+',
                ChangeKind::Equal => ' ',
            }
        }),
{
    reveal_strlit("-");
    reveal_strlit("+");
    reveal_strlit(" ");
    let shown = change_row(change);
    let line = bounded(without_end(change.1, '\n'), MAX_PREVIEW_LINE_CHARS as int);
    assert(shown.text.skip(2) =~= line);
}

/// The changes are shown in their order, up to a bound.
pub proof fn changes_are_shown_in_order(list: Seq<(ChangeKind, Seq<char>)>, limit: int, k: int)
    requires
        0 <= limit,
        0 <= k < list.len(),
        k < limit,
    ensures
        change_rows(list, limit).len() == if list.len() <= limit {
            list.len() as int
        } else {
            limit
        },
        change_rows(list, limit)[k] == change_row(list[k]),
{
}

/// What stands over the document starts with the instruction. While an answer
/// comes in its last lines are shown, before that the first lines that will be
/// rewritten.
pub proof fn the_newest_lines_are_shown(assist: Assist)
    ensures
        ({
            let rows = assist.overlay().rows;
            &&& rows.len() >= 2
            &&& ends(rows[0].text, assist.prompt.text)
            &&& assist.phase is Generating && lines(assist.generated).len() > 0 ==> {
                let all = lines(assist.generated);
                &&& ends(rows.last().text, bounded(all.last(), MAX_PREVIEW_LINE_CHARS as int))
                &&& rows.last().enabled
                &&& rows.len() == 2 + least(all.len() as int, 24)
            }
            &&& assist.phase is Prompt && lines(assist.original).len() > 0 ==> {
                let all = lines(assist.original);
                &&& ends(rows[2].text, bounded(all[0], MAX_PREVIEW_LINE_CHARS as int))
                &&& rows.len() == 2 + least(all.len() as int, 12)
            }
            &&& assist.phase is Failed ==> rows.len() == 2 && (assist.error matches Some(error)
                ==> rows[1].text == error)
        }),
{
    let rows = assist.overlay().rows;
    let first = "Instruction: "@ + assist.prompt.text;
    assert(first.skip(first.len() - assist.prompt.text.len()) =~= assist.prompt.text);
    if assist.phase is Generating && lines(assist.generated).len() > 0 {
        let all = lines(assist.generated);
        let line = bounded(all.last(), MAX_PREVIEW_LINE_CHARS as int);
        let text = "+ "@ + line;
        assert(rows.last().text == text);
        assert(text.skip(text.len() - line.len()) =~= line);
    }
    if assist.phase is Prompt && lines(assist.original).len() > 0 {
        let all = lines(assist.original);
        let line = bounded(all[0], MAX_PREVIEW_LINE_CHARS as int);
        let text = "  "@ + line;
        assert(rows[2].text == text);
        assert(text.skip(text.len() - line.len()) =~= line);
    }
}

/// What a model writes is passed on as it comes, and what goes wrong is told.
pub proof fn what_a_model_writes_is_passed_on(flow: Flow, event: GenerationEvent)
    requires
        flow.writing is Model,
    ensures
        ({
            let (next, deed) = flow.after(event);
            &&& event is Started ==> deed is Open && next == flow
            &&& event matches GenerationEvent::Part(Ok(part)) ==> deed == Deed::Send(part@)
                && next.complete == flow.complete + part@
            &&& event matches GenerationEvent::Part(Err(error)) ==> deed == Deed::Failed(error@)
            &&& event matches GenerationEvent::Opened(Err(error)) ==> deed == Deed::Failed(error@)
            &&& event matches GenerationEvent::Opened(Ok(_)) ==> deed is Next
            &&& event is Sent ==> deed is Next && next == flow
            &&& event is Ended ==> deed == Deed::Done(flow.complete)
            &&& event matches GenerationEvent::Closed(cause) ==> (deed matches Deed::Failed(words)
                && ends(words, cause@))
        }),
{
    if let GenerationEvent::Closed(cause) = event {
        let words = "terminal event loop closed during inline generation: "@ + cause@;
        assert(words.skip(words.len() - cause@.len()) =~= cause@);
    }
}

/// A fixture comes before all else; an instruction to delete needs no model and
/// leaves nothing; for any other there has to be one.
pub proof fn deleting_needs_no_model(instruction: Seq<char>, fixture: Seq<char>, model: ModelChoice)
    ensures
        started(Some(fixture), instruction, model) matches Ok((_, flow)) && flow.writing
            == Writing::Given(chunks(fixture, 8)),
        same_folded(trimmed(instruction), "delete"@) ==> (started(
            None,
            instruction,
            model,
        ) matches Ok((_, flow)) && flow.after(GenerationEvent::Started).1 == Deed::Done(
            Seq::empty(),
        )),
        !same_folded(trimmed(instruction), "delete"@) ==> match model {
            ModelChoice::Ready(name) => started(None, instruction, model) matches Ok((shown, flow))
                && shown == name@ && flow.writing is Model,
            ModelChoice::Missing => started(None, instruction, model) is Err,
            ModelChoice::NoRequest(cause) => started(None, instruction, model) matches Err(words)
                && ends(words, cause@),
        },
{
    if let ModelChoice::NoRequest(cause) = model {
        let words = "generate Zed inline transformation prompt: "@ + cause@;
        assert(words.skip(words.len() - cause@.len()) =~= cause@);
    }
}

/// The status row tells the instruction while it is typed, the bytes while an
/// answer comes in, and what went wrong where it failed; a message stands in
/// front.
pub proof fn the_status_row_tells_the_phase(assist: Assist, message: Option<&str>)
    ensures
        message matches Some(text) ==> starts(assist.status(message), text@),
        assist.phase is Prompt ==> starts(
            assist.status(message),
            lead(message) + "Inline Assistant: "@ + assist.prompt.text,
        ),
        assist.phase is Generating ==> ends(
            assist.status(message),
            decimal(utf8_len(assist.generated)) + " bytes  Esc cancel"@,
        ),
        assist.phase is Failed ==> starts(
            assist.status(message),
            lead(message) + "Inline Assistant failed: "@ + error_text(assist.error),
        ),
{
    let all = assist.status(message);
    if let Some(text) = message {
        assert(all.take(text@.len() as int) =~= text@);
    }
    match assist.phase {
        InlineAssistPhase::Prompt => {
            let front = lead(message) + "Inline Assistant: "@ + assist.prompt.text;
            assert(all.take(front.len() as int) =~= front);
        },
        InlineAssistPhase::Generating => {
            let end = decimal(utf8_len(assist.generated)) + " bytes  Esc cancel"@;
            assert(all.skip(all.len() - end.len()) =~= end);
        },
        InlineAssistPhase::Failed => {
            let front = lead(message) + "Inline Assistant failed: "@ + error_text(assist.error);
            assert(all.take(front.len() as int) =~= front);
        },
        InlineAssistPhase::Preview => {},
    }
}

} // verus!
