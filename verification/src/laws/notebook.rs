//! Laws of notebooks.

use vstd::prelude::*;
use vstd::string::*;

use crate::geometry::Rect;
use crate::input::{KeyCode, KeyEvent};
use crate::json::Json;
use crate::notebook::{
    all_outputs, body_strokes, cell_id, cell_rows, cells_rows, command_demand, fitted, fitting,
    header_text, is_kernel, joined_texts, kept_outputs, kernel_name, kernels, notebook_rows,
    notebook_strokes, output_list, output_rows, preserved, row_parts, shown_cells, shown_output,
    source_rows, title_text, value_text, without_cell, Book, BookRow, Demand, KernelProcess,
    NotebookMode, NotebookRowKind, MAX_OUTPUT_LINES_PER_CELL, MAX_PROJECTED_LINE_BYTES,
    MAX_SOURCE_LINES_PER_CELL,
};
use crate::paint::{Stroke, BOLD};
use crate::prompt::pressed_alone;
use crate::text::{decimal, lines, utf8_len};
use crate::input::KeyEventKind;
use crate::notebook::{
    ancestor, connection_file, descends_from, image_key, names_connection, parent_process, rich_lines,
    status_text, workspace_key,
};
use crate::notebook::notebook_path;
use crate::paths::{name_of, parts};
use crate::text::{ends, starts};

verus! {

/// The literals that tell the types of outputs apart.
proof fn lemma_output_types()
    ensures
        "stream"@ != "error"@,
        "stream"@ != "display_data"@,
        "stream"@ != "execute_result"@,
        "error"@ != "display_data"@,
        "error"@ != "execute_result"@,
        "display_data"@ != "execute_result"@,
{
    reveal_strlit("stream");
    reveal_strlit("error");
    reveal_strlit("display_data");
    reveal_strlit("execute_result");
    assert("stream"@.len() == 6 && "error"@.len() == 5);
    assert("display_data"@.len() == 12 && "execute_result"@.len() == 14);
}

/// Whether an output says that it is of a type.
pub open spec fn of_type(output: Json, kind: Seq<char>) -> bool {
    output.field("output_type"@) == Some(Json::Text(kind))
}

/// Whether rows are the lines of a text, each behind the same words and of one
/// kind; a text without a line is one empty row.
pub open spec fn rows_of_text(
    rows: Seq<(Seq<char>, NotebookRowKind)>,
    front: Seq<char>,
    text: Seq<char>,
    kind: NotebookRowKind,
) -> bool {
    if lines(text).len() == 0 {
        rows == seq![(front, kind)]
    } else {
        &&& rows.len() == lines(text).len()
        &&& forall|i: int| 0 <= i < rows.len() ==> #[trigger] rows[i] == (front + lines(text)[i], kind)
    }
}

/// The value of a cell is shown, and so is what it displays: under both types
/// of rich output the rows are the lines of its plain text, each behind the name
/// of its type. Markdown is shown where there is no plain text, JSON where there
/// is neither, and HTML where there is nothing else.
pub proof fn rich_outputs_show_their_text(output: Json, data: Json, value: Json, kind: Seq<char>)
    requires
        kind == "display_data"@ || kind == "execute_result"@,
        of_type(output, kind),
        output.field("data"@) == Some(data),
        data is Table,
    ensures
        data.field("text/plain"@) == Some(value) ==> rows_of_text(
            shown_output(output),
            "text/plain: "@,
            value_text(value),
            NotebookRowKind::Output,
        ),
        data.field("text/plain"@) is None && data.field("text/markdown"@) == Some(value)
            ==> rows_of_text(
            shown_output(output),
            "text/markdown: "@,
            value_text(value),
            NotebookRowKind::Output,
        ),
        data.field("text/plain"@) is None && data.field("text/markdown"@) is None && data.field(
            "application/json"@,
        ) == Some(value) ==> rows_of_text(
            shown_output(output),
            "application/json: "@,
            value_text(value),
            NotebookRowKind::Output,
        ),
        data.field("text/plain"@) is None && data.field("text/markdown"@) is None && data.field(
            "application/json"@,
        ) is None && data.field("text/html"@) == Some(value) ==> rows_of_text(
            shown_output(output),
            "text/html: "@,
            value_text(value),
            NotebookRowKind::Output,
        ),
{
    lemma_output_types();
    reveal_strlit(": ");
    reveal_strlit("text/plain");
    reveal_strlit("text/markdown");
    reveal_strlit("application/json");
    reveal_strlit("text/html");
    reveal_strlit("text/plain: ");
    reveal_strlit("text/markdown: ");
    reveal_strlit("application/json: ");
    reveal_strlit("text/html: ");
    assert("text/plain"@ + ": "@ =~= "text/plain: "@);
    assert("text/markdown"@ + ": "@ =~= "text/markdown: "@);
    assert("application/json"@ + ": "@ =~= "application/json: "@);
    assert("text/html"@ + ": "@ =~= "text/html: "@);
    let rows = shown_output(output);
    if rows.len() == 1 {
        assert(rows =~= seq![rows[0]]);
    }
    assert("text/plain: "@ + Seq::<char>::empty() =~= "text/plain: "@);
    assert("text/markdown: "@ + Seq::<char>::empty() =~= "text/markdown: "@);
    assert("application/json: "@ + Seq::<char>::empty() =~= "application/json: "@);
    assert("text/html: "@ + Seq::<char>::empty() =~= "text/html: "@);
}

/// The same data is shown in the same way as the value of a cell and as what a
/// cell displays.
pub proof fn rich_outputs_are_shown_alike(a: Json, b: Json)
    requires
        of_type(a, "display_data"@),
        of_type(b, "execute_result"@),
        a.field("data"@) == b.field("data"@),
    ensures
        shown_output(a) == shown_output(b),
{
    lemma_output_types();
}

/// What a cell printed is shown line by line as it is. An error shows its name
/// and its value on one row, and behind it its traceback. Both tell what they
/// are by their kind.
pub proof fn streams_and_errors_are_shown(output: Json, name: Seq<char>, value: Seq<char>, text: Json)
    ensures
        of_type(output, "stream"@) && output.field("text"@) == Some(text) ==> rows_of_text(
            shown_output(output),
            Seq::empty(),
            value_text(text),
            NotebookRowKind::Output,
        ),
        of_type(output, "error"@) && output.field("ename"@) == Some(Json::Text(name))
            && output.field("evalue"@) == Some(Json::Text(value)) && output.field("traceback"@)
            == Some(text) ==> {
            &&& shown_output(output)[0] == (name + ": "@ + value, NotebookRowKind::Error)
            &&& rows_of_text(
                shown_output(output).skip(1),
                Seq::empty(),
                value_text(text),
                NotebookRowKind::Error,
            )
        },
{
    lemma_output_types();
    let none = Seq::<char>::empty();
    assert(none + none =~= none);
    assert forall|s: Seq<char>| #[trigger] (none + s) == s by {
        assert(none + s =~= s);
    }
    let rows = shown_output(output);
    if rows.len() == 1 {
        assert(rows =~= seq![rows[0]]);
    }
    if rows.len() == 2 {
        assert(rows.skip(1) =~= seq![rows[1]]);
    }
}

/// An output of another type is named.
pub proof fn other_outputs_are_named(output: Json, kind: Seq<char>)
    requires
        of_type(output, kind),
        kind != "stream"@ && kind != "error"@ && kind != "display_data"@ && kind
            != "execute_result"@,
    ensures
        shown_output(output) == seq![("["@ + kind + " output]"@, NotebookRowKind::Hint)],
{
}

/// Texts in a list are one text, in their order.
pub proof fn listed_texts_are_one_text(a: Seq<Json>, b: Seq<Json>, text: Seq<char>)
    ensures
        joined_texts(a + b) == joined_texts(a) + joined_texts(b),
        joined_texts(seq![Json::Text(text)]) == text,
        value_text(Json::Text(text)) == text,
    decreases b.len(),
{
    if b.len() == 0 {
        assert(a + b =~= a);
        assert(joined_texts(a) + joined_texts(b) =~= joined_texts(a));
    } else {
        listed_texts_are_one_text(a, b.drop_last(), text);
        assert((a + b).drop_last() =~= a + b.drop_last());
        match b.last().text() {
            Some(own) => {
                assert(joined_texts(a) + joined_texts(b.drop_last()) + own =~= joined_texts(a) + (
                joined_texts(b.drop_last()) + own));
            },
            None => {},
        }
    }
    let one = seq![Json::Text(text)];
    assert(one.drop_last() =~= Seq::<Json>::empty());
    assert(joined_texts(one.drop_last()) =~= Seq::<char>::empty());
    assert(joined_texts(one) =~= text);
}

/// A line within the limit is shown as it is. Another one is cut behind as many
/// scalar values as fit with a mark, which stands at its end.
pub proof fn long_lines_are_cut(line: Seq<char>)
    ensures
        utf8_len(line) <= MAX_PROJECTED_LINE_BYTES ==> fitted(line) == line,
        utf8_len(line) > MAX_PROJECTED_LINE_BYTES ==> {
            let shown = fitted(line).drop_last();
            &&& fitted(line).len() > 0 && fitted(line).last() == '\u{2026}'
            &&& shown == line.take(shown.len() as int)
            &&& shown.len() < line.len()
            &&& utf8_len(shown) + 3 <= MAX_PROJECTED_LINE_BYTES
            &&& utf8_len(line.take(shown.len() as int + 1)) + 3 > MAX_PROJECTED_LINE_BYTES
        },
{
    if utf8_len(line) > MAX_PROJECTED_LINE_BYTES {
        lemma_fitting(line, MAX_PROJECTED_LINE_BYTES - 3);
        let n = fitting(line, MAX_PROJECTED_LINE_BYTES - 3);
        assert(fitted(line).drop_last() =~= line.take(n));
    }
}

proof fn lemma_fitting(s: Seq<char>, limit: int)
    requires
        0 <= limit,
    ensures
        0 <= fitting(s, limit) <= s.len(),
        utf8_len(s.take(fitting(s, limit))) <= limit,
        utf8_len(s) > limit ==> fitting(s, limit) < s.len() && utf8_len(
            s.take(fitting(s, limit) + 1),
        ) > limit,
    decreases s.len(),
{
    assert(s.take(s.len() as int) =~= s);
    if utf8_len(s) > limit && s.len() > 0 {
        let front = s.drop_last();
        lemma_fitting(front, limit);
        let n = fitting(front, limit);
        assert(front.take(n) =~= s.take(n));
        if utf8_len(front) > limit {
            assert(front.take(n + 1) =~= s.take(n + 1));
        } else {
            assert(n == front.len());
            assert(s.take(n + 1) =~= s);
        }
    }
}

/// The row over a cell has the mark of the selection, the number of the cell
/// counted from one, its type, and how often it was run.
pub proof fn cells_are_headed_by_their_number(cell: Json, index: int, kind: Seq<char>, count: Seq<char>)
    requires
        0 <= index,
        cell.field("cell_type"@) == Some(Json::Text(kind)),
        cell.field("execution_count"@) == Some(Json::Number(count)),
    ensures
        header_text(cell, index, true) == "\u{25b6} Cell "@ + decimal((index + 1) as nat)
            + " \u{b7} "@ + kind + " \u{b7} In["@ + value_text(Json::Number(count)) + "]"@,
        header_text(cell, index, false) == "  Cell "@ + decimal((index + 1) as nat) + " \u{b7} "@
            + kind + " \u{b7} In["@ + value_text(Json::Number(count)) + "]"@,
{
    reveal_strlit("\u{25b6}");
    reveal_strlit(" ");
    reveal_strlit(" Cell ");
    reveal_strlit("\u{25b6} Cell ");
    reveal_strlit("  Cell ");
    assert("\u{25b6}"@ + " Cell "@ =~= "\u{25b6} Cell "@);
    assert(" "@ + " Cell "@ =~= "  Cell "@);
}

/// A cell is shown by a row over it, then its source line by line, then what
/// came of it, then an empty row. Each of these rows says whether the cell is the
/// selected one.
pub proof fn cells_are_shown_in_parts(cell: Json, index: int, selected: bool)
    ensures
        ({
            let rows = cell_rows(cell, index, selected);
            let source = match cell.field("source"@) {
                Some(value) => lines(value_text(value)),
                None => Seq::empty(),
            };
            let shown = if source.len() == 0 {
                1int
            } else if source.len() <= MAX_SOURCE_LINES_PER_CELL {
                source.len() as int
            } else {
                MAX_SOURCE_LINES_PER_CELL as int
            };
            let outputs = all_outputs(output_list(cell));
            &&& rows.len() >= shown + 2
            &&& rows[0].kind is CellHeader && rows[0].text == header_text(cell, index, selected)
            &&& rows.last().text.len() == 0
            &&& forall|i: int| 0 <= i < rows.len() ==> (#[trigger] rows[i]).selected == selected
            &&& source.len() > 0 ==> forall|i: int|
                0 <= i < shown ==> (#[trigger] rows[1 + i]).kind is Source && rows[1 + i].text
                    == "  \u{2502} "@ + fitted(source[i])
            &&& outputs.len() <= MAX_OUTPUT_LINES_PER_CELL ==> rows.len() == shown + 2
                + outputs.len()
            &&& forall|i: int|
                0 <= i < outputs.len() && i < MAX_OUTPUT_LINES_PER_CELL ==> (#[trigger] rows[1
                    + shown + i]).kind == outputs[i].1 && rows[1 + shown + i].text
                    == "  \u{2570}\u{2500} "@ + fitted(outputs[i].0)
        }),
{
    let rows = cell_rows(cell, index, selected);
    let source = source_rows(cell, selected);
    let outputs = output_rows(all_outputs(output_list(cell)), selected);
    assert forall|i: int| 0 <= i < rows.len() implies (#[trigger] rows[i]).selected == selected by {
        if 1 <= i < 1 + source.len() {
            assert(rows[i] == source[i - 1]);
        } else if 1 + source.len() <= i < 1 + source.len() + outputs.len() {
            assert(rows[i] == outputs[i - 1 - source.len()]);
        }
    }
    let all = all_outputs(output_list(cell));
    assert forall|i: int| 0 <= i < all.len() && i < MAX_OUTPUT_LINES_PER_CELL implies (
    #[trigger] rows[1 + source.len() + i]).kind == all[i].1 && rows[1 + source.len() + i].text
        == "  \u{2570}\u{2500} "@ + fitted(all[i].0) by {
        assert(rows[1 + source.len() + i] == outputs[i]);
    }
    assert forall|i: int| 0 <= i < source.len() implies #[trigger] rows[1 + i] == source[i] by {}
}

/// The outputs of a cell are shown one behind the other.
pub proof fn outputs_follow_each_other(first: Seq<Json>, second: Seq<Json>, one: Json)
    ensures
        all_outputs(first + second) == all_outputs(first) + all_outputs(second),
        all_outputs(seq![one]) == shown_output(one),
    decreases second.len(),
{
    if second.len() == 0 {
        assert(first + second =~= first);
        assert(all_outputs(first) + all_outputs(second) =~= all_outputs(first));
    } else {
        outputs_follow_each_other(first, second.drop_last(), one);
        assert((first + second).drop_last() =~= first + second.drop_last());
        assert(all_outputs(first) + all_outputs(second.drop_last()) + shown_output(second.last())
            =~= all_outputs(first) + (all_outputs(second.drop_last()) + shown_output(
            second.last(),
        )));
    }
    assert(seq![one].drop_last() =~= Seq::<Json>::empty());
    assert(all_outputs(seq![one].drop_last()) + shown_output(one) =~= shown_output(one));
}

/// The cells of a notebook are shown in their order, each with its own number,
/// and only the selected one as selected: the rows of a cell stand behind those
/// of the cells before it.
pub proof fn cells_follow_each_other(cells: Seq<Json>, selected: int, i: int)
    requires
        0 <= i < cells.len(),
    ensures
        ({
            let before = cells_rows(cells.take(i), selected).len() as int;
            let own = cell_rows(cells[i], i, i == selected);
            &&& before + own.len() <= cells_rows(cells, selected).len()
            &&& cells_rows(cells, selected).subrange(before, before + own.len()) == own
        }),
    decreases cells.len(),
{
    let last = cells.len() - 1;
    let front = cells.drop_last();
    let all = cells_rows(cells, selected);
    let head = cells_rows(front, selected);
    if i == last {
        assert(cells.take(i) =~= front);
        let own = cell_rows(cells[i], i, i == selected);
        assert(all.subrange(head.len() as int, (head.len() + own.len()) as int) =~= own);
    } else {
        cells_follow_each_other(front, selected, i);
        assert(front.take(i) =~= cells.take(i));
        let before = cells_rows(cells.take(i), selected).len() as int;
        let own = cell_rows(cells[i], i, i == selected);
        assert(all.subrange(before, before + own.len()) =~= head.subrange(
            before,
            before + own.len(),
        ));
    }
}

/// The first row of a notebook is its title: the kernel by the name that it is
/// displayed under, or else its own, the number of cells, and the mode. The cells
/// follow.
pub proof fn notebooks_start_with_a_title(notebook: Json, selected: int, mode: NotebookMode)
    ensures
        ({
            let rows = notebook_rows(notebook, selected, mode);
            let shown = cells_rows(shown_cells(notebook), selected);
            &&& rows[0].kind is Title && !rows[0].selected
            &&& rows[0].text == title_text(notebook, mode)
            &&& rows.len() >= 1 + shown.len()
            &&& rows.subrange(1, (1 + shown.len()) as int) == shown
        }),
        shown_cells(notebook) == match notebook.field("cells"@) {
            Some(Json::List(list)) => if list.len() <= 10_000 {
                list
            } else {
                list.take(10_000)
            },
            _ => Seq::empty(),
        },
{
    let rows = notebook_rows(notebook, selected, mode);
    let shown = cells_rows(shown_cells(notebook), selected);
    assert(rows.subrange(1, (1 + shown.len()) as int) =~= shown);
    match notebook.field("cells"@) {
        Some(Json::List(list)) => {
            if list.len() <= 10_000 {
                assert(list.take(list.len() as int) =~= list);
            }
        },
        _ => {
            assert(shown_cells(notebook) =~= Seq::<Json>::empty());
        },
    }
}

/// The kernel is called by the name that it is displayed under, or else by its
/// own.
pub proof fn kernels_are_called_by_their_name(notebook: Json, metadata: Json, kernel: Json, name: Seq<char>)
    requires
        notebook.field("metadata"@) == Some(metadata),
        metadata.field("kernelspec"@) == Some(kernel),
    ensures
        kernel.field("display_name"@) == Some(Json::Text(name)) ==> kernel_name(notebook) == name,
        kernel.field("display_name"@) is None && kernel.field("name"@) == Some(Json::Text(name))
            ==> kernel_name(notebook) == name,
{
}

/// In command mode, the keys without a modifier select, edit, add, delete and
/// run as they are named: Up and Down select the cell before and behind, Enter
/// and `e` edit, `b` and `m` add code and Markdown, `d` twice deletes.
pub proof fn command_keys_ask_for_their_command(event: KeyEvent, armed: bool)
    ensures
        ({
            let demand = command_demand(event, armed);
            &&& pressed_alone(event, KeyCode::Up) ==> demand is SelectPrevious
            &&& pressed_alone(event, KeyCode::Down) ==> demand is SelectNext
            &&& pressed_alone(event, KeyCode::Enter) ==> demand is Edit
            &&& pressed_alone(event, KeyCode::PageUp) ==> demand is PageUp
            &&& pressed_alone(event, KeyCode::PageDown) ==> demand is PageDown
            &&& pressed_alone(event, KeyCode::Char('e')) ==> demand is Edit
            &&& pressed_alone(event, KeyCode::Char('b')) ==> demand is AddCode
            &&& pressed_alone(event, KeyCode::Char('m')) ==> demand is AddMarkdown
            &&& pressed_alone(event, KeyCode::Char('d')) && armed ==> demand is Delete
            &&& pressed_alone(event, KeyCode::Char('d')) && !armed ==> demand is ArmDelete
            &&& pressed_alone(event, KeyCode::Char('c')) ==> demand is ClearOutputs
            &&& pressed_alone(event, KeyCode::Char('i')) ==> demand is Interrupt
            &&& pressed_alone(event, KeyCode::Char('r')) ==> demand is Restart
        }),
        ({
            let m = event.modifiers;
            let demand = command_demand(event, armed);
            let alt = m.alt && !m.shift && !m.control && !m.super_key && !m.hyper && !m.meta;
            let shift = m.shift && !m.alt && !m.control && !m.super_key && !m.hyper && !m.meta;
            &&& alt && event.code == KeyCode::Up ==> demand is MoveUp
            &&& alt && event.code == KeyCode::Down ==> demand is MoveDown
            &&& shift && event.code == KeyCode::Char('R') ==> demand is RunAll
        }),
{
}

/// Control and Enter run the selected cell, Shift and Enter run it and go on, in
/// either mode. Escape leaves the editing of a cell, and in it every other key
/// goes to the cell.
pub proof fn keys_run_cells_in_either_mode(book: Book, event: KeyEvent)
    requires
        !(event.kind is Release),
    ensures
        ({
            let m = event.modifiers;
            let others = m.alt || m.super_key || m.hyper || m.meta;
            let demand = book.demand(event, false);
            &&& event.code == KeyCode::Enter && m.control && !m.shift && !others ==> demand is Run
            &&& event.code == KeyCode::Enter && m.shift && !m.control && !others ==> demand
                is RunAndAdvance
            &&& book.mode is Edit && pressed_alone(event, KeyCode::Esc) ==> demand is LeaveEdit
            &&& book.mode is Edit ==> demand is Run || demand is RunAndAdvance || demand
                is LeaveEdit || demand is Type || demand is Press || demand is Unknown || demand
                is Unhandled
            &&& book.demand(event, true) is Unhandled
        }),
{
}

/// What the commands of a notebook leave: the cell behind or before is selected
/// where there is one, a cell that is added stands below and is edited, a cell
/// that is deleted leaves the one at its place selected, or the last one. A page
/// is as high as the body, and no press for a deletion outlives another command.
pub proof fn commands_do_what_they_say(book: Book, height: int, recovered: int)
    requires
        0 <= book.selected < book.count,
        book.count < usize::MAX,
        0 <= height,
        0 <= book.scroll,
        book.scroll + height < usize::MAX,
    ensures
        ({
            let next = |demand: Demand| book.done(demand, height, recovered);
            let last = book.count - 1;
            &&& next(Demand::SelectPrevious).selected == if book.selected == 0 {
                0
            } else {
                book.selected - 1
            }
            &&& next(Demand::SelectNext).selected == if book.selected == last {
                last
            } else {
                book.selected + 1
            }
            &&& next(Demand::MoveUp).selected == next(Demand::SelectPrevious).selected
            &&& next(Demand::MoveDown).selected == next(Demand::SelectNext).selected
            &&& next(Demand::AddCode).selected == book.selected + 1 && next(
                Demand::AddCode,
            ).count == book.count + 1 && next(Demand::AddCode).mode is Edit
            &&& next(Demand::AddMarkdown).selected == book.selected + 1 && next(
                Demand::AddMarkdown,
            ).count == book.count + 1 && next(Demand::AddMarkdown).mode is Edit
            &&& next(Demand::Delete).count == book.count - 1
            &&& next(Demand::Delete).selected == if book.selected < last {
                book.selected
            } else if last == 0 {
                0
            } else {
                last - 1
            }
            &&& next(Demand::Edit).mode is Edit && next(Demand::LeaveEdit).mode is Command
            &&& next(Demand::RunAndAdvance).mode is Command && next(
                Demand::RunAndAdvance,
            ).selected == book.selected + 1
            &&& next(Demand::Run).mode == book.mode && next(Demand::Run).selected == book.selected
            &&& next(Demand::ArmDelete).delete_armed && next(Demand::ArmDelete).count == book.count
            &&& next(Demand::PageDown).scroll == book.scroll + if height == 0 {
                1
            } else {
                height
            }
            &&& height > 0 ==> next(Demand::PageUp).scroll == if book.scroll < height {
                0
            } else {
                book.scroll - height
            }
            &&& forall|demand: Demand|
                !(demand is ArmDelete || demand is Nothing || demand is Unknown) ==> !(
                #[trigger] next(demand)).delete_armed
            &&& forall|demand: Demand|
                !(demand is AddCode || demand is AddMarkdown || demand is Delete) ==> (
                #[trigger] next(demand)).count == book.count
        }),
{
}

/// Outputs that are kept for one cell are no longer once the cell runs; those of
/// the others are. Where all outputs are cleared, none is kept.
pub proof fn only_what_runs_is_forgotten(
    list: Seq<(Seq<char>, Seq<Json>)>,
    id: Seq<char>,
    other: Seq<char>,
)
    ensures
        kept_outputs(without_cell(list, id), id) is None,
        id != other ==> kept_outputs(without_cell(list, id), other) == kept_outputs(list, other),
    decreases list.len(),
{
    if list.len() > 0 {
        let front = list.drop_last();
        only_what_runs_is_forgotten(front, id, other);
        if list.last().0 != id {
            let shown = without_cell(front, id).push(list.last());
            assert(shown.drop_last() =~= without_cell(front, id));
        }
    }
}

/// The outputs of a cell as it was read are kept under the identity of the cell
/// at the same place now, where it has one; no others are.
pub proof fn outputs_are_kept_by_place(raw: Seq<Json>, cells: Seq<Json>, id: Seq<char>, outputs: Seq<Json>)
    ensures
        preserved(raw, cells).contains((id, outputs)) <==> exists|i: int|
            0 <= i < cells.len() && i < raw.len() && #[trigger] cell_id(cells[i]) == Some(id)
                && raw[i].field("outputs"@) == Some(Json::List(outputs)) && outputs.len() > 0,
    decreases cells.len(),
{
    let all = preserved(raw, cells);
    if cells.len() > 0 {
        let front = cells.drop_last();
        let index = cells.len() - 1;
        let before = preserved(raw, front);
        outputs_are_kept_by_place(raw, front, id, outputs);
        assert(forall|i: int| 0 <= i < front.len() ==> front[i] == cells[i]);
        if before.contains((id, outputs)) {
            let k = choose|k: int| 0 <= k < before.len() && before[k] == (id, outputs);
            assert(all[k] == before[k]);
            let i = choose|i: int|
                0 <= i < front.len() && i < raw.len() && #[trigger] cell_id(front[i]) == Some(id)
                    && raw[i].field("outputs"@) == Some(Json::List(outputs)) && outputs.len() > 0;
            assert(cell_id(cells[i]) == Some(id));
        }
        if all.contains((id, outputs)) && !before.contains((id, outputs)) {
            let k = choose|k: int| 0 <= k < all.len() && all[k] == (id, outputs);
            assert(k < before.len() ==> before[k] == all[k]);
            assert(cell_id(cells[index]) == Some(id));
        }
        if exists|i: int|
            0 <= i < cells.len() && i < raw.len() && #[trigger] cell_id(cells[i]) == Some(id)
                && raw[i].field("outputs"@) == Some(Json::List(outputs)) && outputs.len() > 0 {
            let i = choose|i: int|
                0 <= i < cells.len() && i < raw.len() && #[trigger] cell_id(cells[i]) == Some(id)
                    && raw[i].field("outputs"@) == Some(Json::List(outputs)) && outputs.len() > 0;
            if i < front.len() {
                assert(cell_id(front[i]) == Some(id));
            } else {
                assert(all.last() == (id, outputs));
                assert(all[all.len() - 1] == (id, outputs));
            }
        }
    }
}

/// The row that is drawn `i` rows below the top of an area is the one `i` rows
/// behind the first that is shown, printed from the left edge over its whole
/// width; the status is on the last row of the area.
pub proof fn notebook_rows_are_drawn_in_place(
    rows: Seq<BookRow>,
    scroll: int,
    status: Seq<char>,
    area: Rect,
    i: int,
)
    requires
        area.width > 0,
        0 <= scroll,
        0 <= i < area.height - 1,
        scroll + i < rows.len(),
        area.x + area.width <= u16::MAX,
        area.y + area.height <= u16::MAX,
    ensures
        ({
            let list = notebook_strokes(rows, scroll, status, area);
            let row = rows[scroll + i];
            let style = row_parts(row);
            &&& list.len() > 2 * i + 2
            &&& list[2 * i + 2] == (Stroke::Text {
                x: area.x,
                y: (area.y + i) as u16,
                text: row.text,
                width: area.width as usize,
                style,
            })
            &&& list[2 * i + 1] == (Stroke::Fill {
                area: Rect { x: area.x, y: (area.y + i) as u16, width: area.width, height: 1 },
                style,
            })
            &&& list.last() matches Stroke::Text { x, y, text, .. } && x == area.x && y == area.y
                + area.height - 1 && text == status
        }),
{
    let shown = crate::notebook::rows_from(rows, scroll);
    let count = if shown.len() < area.height - 1 {
        shown.len() as int
    } else {
        area.height - 1
    };
    assert(shown[i] == rows[scroll + i]);
    lemma_body_rows(shown, area, count, i);
    let body = body_strokes(shown, area, count);
    let list = notebook_strokes(rows, scroll, status, area);
    assert(list[2 * i + 1] == body[2 * i]);
    assert(list[2 * i + 2] == body[2 * i + 1]);
}

proof fn lemma_body_rows(rows: Seq<BookRow>, area: Rect, count: int, i: int)
    requires
        0 <= i < count <= rows.len(),
        area.width > 0,
        area.y + count <= u16::MAX,
        area.x + area.width <= u16::MAX,
    ensures
        ({
            let list = body_strokes(rows, area, count);
            let style = row_parts(rows[i]);
            &&& list.len() == 2 * count
            &&& list[2 * i] == (Stroke::Fill {
                area: Rect { x: area.x, y: (area.y + i) as u16, width: area.width, height: 1 },
                style,
            })
            &&& list[2 * i + 1] == (Stroke::Text {
                x: area.x,
                y: (area.y + i) as u16,
                text: rows[i].text,
                width: area.width as usize,
                style,
            })
        }),
    decreases count,
{
    let head = body_strokes(rows, area, count - 1);
    let list = body_strokes(rows, area, count);
    if count == 1 {
        assert(head =~= Seq::<Stroke>::empty());
    } else {
        lemma_body_rows(
            rows,
            area,
            count - 1,
            if i < count - 1 {
                i
            } else {
                0
            },
        );
    }
    if i < count - 1 {
        assert(list[2 * i] == head[2 * i]);
        assert(list[2 * i + 1] == head[2 * i + 1]);
    }
}

/// The kinds of rows are told apart by their color: an error is red, what a cell
/// printed green, and so on; a title is bold, and a selected row has a ground of
/// its own.
pub proof fn kinds_of_rows_have_their_colors(row: BookRow)
    ensures
        ({
            let style = row_parts(row);
            &&& style.fg == Some(
                match row.kind {
                    NotebookRowKind::Error => 2int,
                    NotebookRowKind::Output => 3,
                    NotebookRowKind::CellHeader => 4,
                    NotebookRowKind::Title => 7,
                    NotebookRowKind::Hint => 9,
                    NotebookRowKind::Source => 16,
                },
            )
            &&& style.bg == if row.selected {
                Some(9int)
            } else {
                None
            }
            &&& row.kind is Title <==> style.added != 0
        }),
{
    assert(0u16 | BOLD == BOLD) by (bit_vector);
}

/// Every process that names the connection file and comes from this program is
/// taken for a kernel, where it was asked for or all were.
pub proof fn all_own_kernels_are_chosen(
    list: Seq<KernelProcess>,
    count: int,
    name: Seq<char>,
    owner: int,
    requested: Option<Seq<u32>>,
    i: int,
)
    requires
        0 <= i < count <= list.len(),
        is_kernel(list, i, name, owner),
        requested is None || requested->0.contains(list[i].pid),
    ensures
        kernels(list, count, name, owner, requested).contains(list[i].pid),
    decreases count,
{
    let all = kernels(list, count, name, owner, requested);
    let before = kernels(list, count - 1, name, owner, requested);
    if i == count - 1 {
        assert(all[before.len() as int] == list[i].pid);
    } else {
        all_own_kernels_are_chosen(list, count - 1, name, owner, requested, i);
        let k = choose|k: int| 0 <= k < before.len() && before[k] == list[i].pid;
        assert(all[k] == list[i].pid);
    }
}

/// Of the types that an output comes in, plain text is shown before Markdown,
/// that before JSON, and that before HTML; the lines are marked with the type.
pub proof fn plain_text_is_shown_before_other_types(data: Json, value: Json, i: int)
    requires
        data is Table,
        0 <= i,
    ensures
        ({
            let shown = rich_lines(data);
            let (plain, markdown) = (data.field("text/plain"@), data.field("text/markdown"@));
            let (json, html) = (data.field("application/json"@), data.field("text/html"@));
            &&& plain is Some && i < shown.len() ==> starts(shown[i].0, "text/plain: "@)
            &&& plain is None && markdown is Some && i < shown.len() ==> starts(
                shown[i].0,
                "text/markdown: "@,
            )
            &&& plain is None && markdown is None && json is Some && i < shown.len() ==> starts(
                shown[i].0,
                "application/json: "@,
            )
            &&& plain is None && markdown is None && json is None && html is Some && i < shown.len()
                ==> starts(shown[i].0, "text/html: "@)
            &&& plain is Some || markdown is Some || json is Some || html is Some ==> shown.len() > 0
        }),
{
    reveal_strlit(": ");
    reveal_strlit("text/plain");
    reveal_strlit("text/plain: ");
    reveal_strlit("text/markdown");
    reveal_strlit("text/markdown: ");
    reveal_strlit("application/json");
    reveal_strlit("application/json: ");
    reveal_strlit("text/html");
    reveal_strlit("text/html: ");
    assert("text/plain"@ + ": "@ =~= "text/plain: "@);
    assert("text/markdown"@ + ": "@ =~= "text/markdown: "@);
    assert("application/json"@ + ": "@ =~= "application/json: "@);
    assert("text/html"@ + ": "@ =~= "text/html: "@);
    let shown = rich_lines(data);
    if i < shown.len() {
        let text = shown[i].0;
        if data.field("text/plain"@) is Some {
            assert(text.take("text/plain: "@.len() as int) =~= "text/plain: "@);
        } else if data.field("text/markdown"@) is Some {
            assert(text.take("text/markdown: "@.len() as int) =~= "text/markdown: "@);
        } else if data.field("application/json"@) is Some {
            assert(text.take("application/json: "@.len() as int) =~= "application/json: "@);
        } else if data.field("text/html"@) is Some {
            assert(text.take("text/html: "@.len() as int) =~= "text/html: "@);
        }
    }
}

/// An image is named by its type, the first one of those that there are.
pub proof fn the_first_image_is_named(order: Seq<Seq<char>>)
    ensures
        image_key(order) matches Some(mime) ==> exists|i: int|
            0 <= i < order.len() && #[trigger] order[i] == mime && starts(mime, "image/"@) && forall|
                j: int,
            |
                0 <= j < i ==> !starts(#[trigger] order[j], "image/"@),
        image_key(order) is None ==> forall|i: int|
            0 <= i < order.len() ==> !starts(#[trigger] order[i], "image/"@),
    decreases order.len(),
{
    if order.len() > 0 && !starts(order[0], "image/"@) {
        let rest = order.drop_first();
        the_first_image_is_named(rest);
        if let Some(mime) = image_key(rest) {
            let i = choose|i: int|
                0 <= i < rest.len() && #[trigger] rest[i] == mime && starts(mime, "image/"@)
                    && forall|j: int| 0 <= j < i ==> !starts(#[trigger] rest[j], "image/"@);
            assert(order[i + 1] == mime);
            assert forall|j: int| 0 <= j < i + 1 implies !starts(#[trigger] order[j], "image/"@) by {
                if j > 0 {
                    assert(order[j] == rest[j - 1]);
                }
            }
        } else {
            assert forall|i: int| 0 <= i < order.len() implies !starts(
                #[trigger] order[i],
                "image/"@,
            ) by {
                if i > 0 {
                    assert(order[i] == rest[i - 1]);
                }
            }
        }
    }
}

/// A key of the workspace is one that is bound there, or one of its shortcuts:
/// Control, and no other modifier, with one of a few keys.
pub proof fn shortcuts_of_the_workspace_leave_the_notebook(event: KeyEvent, known: bool)
    ensures
        known ==> workspace_key(event, known),
        !known && workspace_key(event, known) ==> {
            &&& event.kind == KeyEventKind::Press
            &&& event.modifiers.control && !event.modifiers.shift && !event.modifiers.alt
                && !event.modifiers.super_key && !event.modifiers.hyper && !event.modifiers.meta
        },
        event.kind == KeyEventKind::Press && event.modifiers == crate::input::only_control() ==> (
        workspace_key(event, false) <==> event.code == KeyCode::Char('q') || event.code
            == KeyCode::Char('s') || event.code == KeyCode::Char('w') || event.code
            == KeyCode::Char('n') || event.code == KeyCode::Char('o') || event.code
            == KeyCode::PageUp || event.code == KeyCode::PageDown),
{
}

/// The parent of a process is the one that its own entry tells.
pub proof fn processes_tell_their_parents(list: Seq<KernelProcess>, i: int)
    requires
        0 <= i < list.len(),
        forall|m: int, n: int|
            0 <= m < n < list.len() ==> (#[trigger] list[m]).pid != (#[trigger] list[n]).pid,
    ensures
        list[i].parent matches Some(parent) ==> parent_process(list, list[i].pid as int) == Some(
            parent as int,
        ),
        list[i].parent is None ==> parent_process(list, list[i].pid as int) is None,
    decreases i,
{
    if i > 0 {
        assert(list[0].pid != list[i].pid);
        let rest = list.skip(1);
        assert forall|m: int, n: int| 0 <= m < n < rest.len() implies (#[trigger] rest[m]).pid != (
        #[trigger] rest[n]).pid by {
            assert(list[m + 1].pid != list[n + 1].pid);
        }
        assert(rest[i - 1] == list[i]);
        processes_tell_their_parents(rest, i - 1);
    }
}

/// A process descends from itself, and from all that its parent descends from,
/// as far as the list goes.
pub proof fn processes_descend_from_their_parents(
    list: Seq<KernelProcess>,
    pid: int,
    parent: int,
    steps: nat,
)
    requires
        parent_process(list, pid) == Some(parent),
    ensures
        descends_from(list, pid, pid),
        ancestor(list, pid, steps + 1) == ancestor(list, parent, steps),
    decreases steps,
{
    assert(ancestor(list, pid, 0) == Some(pid));
    if steps == 0 {
        reveal_with_fuel(ancestor, 2);
    } else {
        processes_descend_from_their_parents(list, pid, parent, (steps - 1) as nat);
    }
}

/// An argument names a file of a connection by its name or by a path to it; an
/// option is no path.
pub proof fn arguments_name_files_by_path(argument: Seq<char>, name: Seq<char>)
    ensures
        names_connection(name, name),
        argument.len() > 0 && argument[0] == '-' && argument != name ==> !names_connection(
            argument,
            name,
        ),
        (argument.len() == 0 || argument[0] != '-') && name_of(parts(argument)) == Some(name)
            ==> names_connection(argument, name),
        name_of(parts(argument)) != Some(name) && argument != name ==> !names_connection(
            argument,
            name,
        ),
{
}

/// Each kernel has a file of its own.
pub proof fn kernels_have_files_of_their_own(a: nat, b: nat)
    requires
        connection_file(a as int) == connection_file(b as int),
    ensures
        a == b,
{
    let (first, second) = (decimal(a), decimal(b));
    let front = "kernel-zed-"@.len() as int;
    let tail = ".json"@.len() as int;
    let all = connection_file(a as int);
    assert(all.subrange(front, all.len() - tail) =~= first);
    assert(all.subrange(front, all.len() - tail) =~= second);
    crate::laws::text::decimals_are_read_back(a, a);
    crate::laws::text::decimals_are_read_back(b, b);
}

/// A notebook is a file whose name has the ending of notebooks and something in
/// front of it.
pub proof fn notebooks_are_told_by_their_ending(path: Seq<char>, stem: Seq<char>, name: Seq<char>)
    ensures
        name_of(parts(path)) == Some(stem + ".ipynb"@) && stem.len() > 0 ==> notebook_path(path),
        name_of(parts(path)) == Some(".ipynb"@) ==> !notebook_path(path),
        name_of(parts(path)) == Some(name) && !ends(name, ".ipynb"@) ==> !notebook_path(path),
        name_of(parts(path)) is None ==> !notebook_path(path),
        starts(status_text(name), name),
{
    let whole = stem + ".ipynb"@;
    assert(whole.skip(whole.len() - ".ipynb"@.len()) =~= ".ipynb"@);
    if stem.len() > 0 {
        assert(whole.len() != ".ipynb"@.len());
    }
    assert(status_text(name).take(name.len() as int) =~= name);
}

/// A kernel of a connection is a process with an argument, wherever it stands,
/// that names the connection's file, and that descends from the owner.
pub proof fn kernels_name_their_connection(
    list: Seq<KernelProcess>,
    index: int,
    name: Seq<char>,
    owner: int,
    k: int,
)
    requires
        0 <= index < list.len(),
    ensures
        0 <= k < list[index].arguments@.len() && names_connection(list[index].arguments@[k]@, name)
            && descends_from(list, list[index].pid as int, owner) ==> is_kernel(
            list,
            index,
            name,
            owner,
        ),
        is_kernel(list, index, name, owner) ==> descends_from(list, list[index].pid as int, owner)
            && exists|i: int|
            0 <= i < list[index].arguments@.len() && names_connection(
                #[trigger] list[index].arguments@[i]@,
                name,
            ),
{
}

} // verus!
