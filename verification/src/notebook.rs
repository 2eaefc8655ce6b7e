//! Notebooks: their cells and outputs as rows, the keys that work on them, and
//! the processes of their kernels.

use ratatui::buffer::Buffer;
use ratatui::style::Style;
use serde_json::Value;
use vstd::prelude::*;
use vstd::string::*;

use crate::geometry::{above_zero, at_most, coordinate, greatest, least, word, Rect};
use crate::git_panel::lies_on;
use crate::input::{
    is_close_tab, is_new_tab, is_next_tab, is_open, is_previous_tab, is_quit, is_save, keystroke,
    no_modifiers, only_control, only_shift, to_gpui_keystroke, KeyCode, KeyEvent, KeyEventKind,
    KeyModifiers, Keystroke, KeystrokeView, control_press,
};
use crate::json::{
    compact, compact_text, copy, field, is_null, json_list, json_of, json_text, keys, list,
    list_value, null_value, pretty, pretty_text, read, text, updated, with_field, Json,
};
use crate::paint::{
    add_modifiers, all_start_on, buffer_area, buffer_cells, colored, drawn, lemma_no_paragraphs,
    no_paragraphs, no_parts, paint,
    plain_style, strokes, style_parts, takes, with_color, with_modifiers, HostColor, Paint, Stroke,
    StyleParts, BOLD,
};
use crate::paths::{components, file_name, name_of, parts};
use crate::text::{
    byte_len, char_len, chars_of, comma_separated, decimal, join_names, ends, ends_with,
    lemma_utf8_len_push, lines, lines_of, push_decimal, same_text, starts, starts_with, string_of,
    texts, utf8_len,
};

verus! {

broadcast use vstd::string::group_string_axioms;

pub const MAX_NOTEBOOK_CELLS: usize = 10_000;

pub const MAX_SOURCE_LINES_PER_CELL: usize = 10_000;

pub const MAX_OUTPUT_LINES_PER_CELL: usize = 10_000;

pub const MAX_PROJECTED_LINE_BYTES: usize = 65_536;

/// The texts of a list, one behind the other; other values count for nothing.
pub open spec fn joined_texts(list: Seq<Json>) -> Seq<char>
    decreases list.len(),
{
    if list.len() == 0 {
        Seq::empty()
    } else {
        match list.last().text() {
            Some(text) => joined_texts(list.drop_last()) + text,
            None => joined_texts(list.drop_last()),
        }
    }
}

/// Whether a list holds texts alone.
pub open spec fn all_texts(list: Seq<Json>) -> bool {
    forall|i: int| 0 <= i < list.len() ==> (#[trigger] list[i]).text() is Some
}

/// A value as text: a text as it is, texts one behind the other, and anything
/// else as JSON.
pub open spec fn value_text(value: Json) -> Seq<char> {
    match value {
        Json::Null => Seq::empty(),
        Json::Text(text) => text,
        Json::List(list) if all_texts(list) => joined_texts(list),
        _ => compact_text(value),
    }
}

fn list_text(values: &Vec<Value>) -> (result: Option<String>)
    ensures
        match result {
            Some(result) => all_texts(json_list(values@)) && result@ == joined_texts(
                json_list(values@),
            ),
            None => !all_texts(json_list(values@)),
        },
{
    let ghost all = json_list(values@);
    let mut result = String::new();
    let mut i: usize = 0;
    assert(all.take(0) =~= Seq::<Json>::empty());
    assert(result@ =~= Seq::<char>::empty());
    while i < values.len()
        invariant
            i <= values@.len(),
            all == json_list(values@),
            result@ == joined_texts(all.take(i as int)),
            forall|k: int| 0 <= k < i ==> (#[trigger] all[k]).text() is Some,
        decreases values@.len() - i,
    {
        proof {
            assert(all.take(i + 1).drop_last() =~= all.take(i as int));
            assert(all.take(i + 1).last() == json_of(values@[i as int]));
            assert(all[i as int] == json_of(values@[i as int]));
        }
        match text(&values[i]) {
            Some(part) => result.append(part),
            None => {
                return None;
            },
        }
        i += 1;
    }
    assert(all.take(i as int) =~= all);
    Some(result)
}

/// A value as text.
pub fn value_to_text(value: &Value) -> (result: String)
    ensures
        result@ == value_text(json_of(*value)),
{
    if is_null(value) {
        let result = String::new();
        assert(result@ =~= Seq::<char>::empty());
        return result;
    }
    if let Some(text) = text(value) {
        return text.to_string();
    }
    if let Some(values) = list(value) {
        if let Some(result) = list_text(values) {
            return result;
        }
    }
    match compact(value) {
        Some(result) => result,
        None => "<invalid output>".to_string(),
    }
}

/// The text of an optional value; none counts as null.
pub open spec fn optional_text(value: Option<Json>) -> Seq<char> {
    match value {
        Some(value) => value_text(value),
        None => Seq::empty(),
    }
}

fn field_text(value: &Value, key: &str) -> (result: String)
    ensures
        result@ == optional_text(json_of(*value).field(key@)),
{
    match field(value, key) {
        Some(value) => value_to_text(value),
        None => {
            let result = String::new();
            assert(result@ =~= Seq::<char>::empty());
            result
        },
    }
}

/// The text under a key, or another.
pub open spec fn text_or(value: Json, key: Seq<char>, other: Seq<char>) -> Seq<char> {
    match value.field(key) {
        Some(value) => match value.text() {
            Some(text) => text,
            None => other,
        },
        None => other,
    }
}

fn field_or(value: &Value, key: &str, other: &str) -> (result: String)
    ensures
        result@ == text_or(json_of(*value), key@, other@),
{
    match field(value, key) {
        Some(value) => match text(value) {
            Some(text) => text.to_string(),
            None => other.to_string(),
        },
        None => other.to_string(),
    }
}

/// The lines of an output; it has at least one.
pub open spec fn output_lines(text: Seq<char>) -> Seq<Seq<char>> {
    if lines(text).len() == 0 {
        seq![Seq::empty()]
    } else {
        lines(text)
    }
}

/// The lines of an output.
pub fn split_output_lines(text: String) -> (result: Vec<String>)
    ensures
        texts(result@) == output_lines(text@),
{
    let mut result = lines_of(text.as_str());
    if result.len() == 0 {
        let blank = String::new();
        assert(blank@ =~= Seq::<char>::empty());
        result.push(blank);
        assert(texts(result@) =~= seq![Seq::<char>::empty()]);
    }
    assert(texts(result@).len() == result@.len());
    result
}

/// What a row of a notebook shows.
#[derive(Clone, Copy, Debug, PartialEq, Eq, Structural)]
pub enum NotebookRowKind {
    Title,
    CellHeader,
    Source,
    Output,
    Error,
    Hint,
}

/// Lines of one kind, each behind the same words.
pub open spec fn marked_lines(
    front: Seq<char>,
    list: Seq<Seq<char>>,
    kind: NotebookRowKind,
) -> Seq<(Seq<char>, NotebookRowKind)> {
    Seq::new(list.len(), |i: int| (front + list[i], kind))
}

/// The texts and kinds of some lines.
pub open spec fn output_views(list: Seq<(String, NotebookRowKind)>) -> Seq<
    (Seq<char>, NotebookRowKind),
> {
    Seq::new(list.len(), |i: int| (list[i].0@, list[i].1))
}

fn push_marked(
    result: &mut Vec<(String, NotebookRowKind)>,
    front: &str,
    list: &Vec<String>,
    kind: NotebookRowKind,
)
    ensures
        output_views(final(result)@) == output_views(old(result)@) + marked_lines(
            front@,
            texts(list@),
            kind,
        ),
{
    let ghost before = output_views(result@);
    let ghost all = marked_lines(front@, texts(list@), kind);
    let mut i: usize = 0;
    assert(before + all.take(0) =~= before);
    while i < list.len()
        invariant
            i <= list@.len(),
            all == marked_lines(front@, texts(list@), kind),
            output_views(result@) == before + all.take(i as int),
        decreases list@.len() - i,
    {
        let mut line = front.to_string();
        line.append(list[i].as_str());
        let ghost held = output_views(result@);
        result.push((line, kind));
        proof {
            assert(output_views(result@) =~= held.push((line@, kind)));
            assert(all[i as int] == (line@, kind));
            assert(before + all.take(i + 1) =~= (before + all.take(i as int)).push(
                all[i as int],
            ));
        }
        i += 1;
    }
    assert(all.take(i as int) =~= all);
}

/// The first key of a table that names an image.
pub open spec fn image_key(order: Seq<Seq<char>>) -> Option<Seq<char>>
    decreases order.len(),
{
    if order.len() == 0 {
        None
    } else if starts(order[0], "image/"@) {
        Some(order[0])
    } else {
        image_key(order.drop_first())
    }
}

/// The lines of an output under one of the types that are shown as text.
pub open spec fn typed_lines(data: Json, mime: Seq<char>) -> Seq<(Seq<char>, NotebookRowKind)> {
    marked_lines(
        mime + ": "@,
        output_lines(optional_text(data.field(mime))),
        NotebookRowKind::Output,
    )
}

/// What is shown of rich data: the first of the types that are text, else that
/// there is an image, else the types that there are.
pub open spec fn rich_lines(data: Json) -> Seq<(Seq<char>, NotebookRowKind)> {
    if data.field("text/plain"@) is Some {
        typed_lines(data, "text/plain"@)
    } else if data.field("text/markdown"@) is Some {
        typed_lines(data, "text/markdown"@)
    } else if data.field("application/json"@) is Some {
        typed_lines(data, "application/json"@)
    } else if data.field("text/html"@) is Some {
        typed_lines(data, "text/html"@)
    } else {
        match image_key(data->Table_1) {
            Some(mime) => seq![
                (
                    "["@ + mime + " output \u{b7} "@ + decimal(
                        utf8_len(optional_text(data.field(mime))),
                    ) + " encoded bytes \u{b7} terminal metadata fallback]"@,
                    NotebookRowKind::Hint,
                ),
            ],
            None => seq![
                (
                    "rich output types: "@ + comma_separated(data->Table_1),
                    NotebookRowKind::Hint,
                ),
            ],
        }
    }
}

/// What is shown of an output.
pub open spec fn shown_output(output: Json) -> Seq<(Seq<char>, NotebookRowKind)> {
    let kind = text_or(output, "output_type"@, "unknown"@);
    if kind == "stream"@ {
        marked_lines(
            Seq::empty(),
            output_lines(optional_text(output.field("text"@))),
            NotebookRowKind::Output,
        )
    } else if kind == "error"@ {
        seq![
            (
                text_or(output, "ename"@, "Kernel Error"@) + ": "@ + text_or(
                    output,
                    "evalue"@,
                    Seq::empty(),
                ),
                NotebookRowKind::Error,
            ),
        ] + marked_lines(
            Seq::empty(),
            output_lines(optional_text(output.field("traceback"@))),
            NotebookRowKind::Error,
        )
    } else if kind == "display_data"@ || kind == "execute_result"@ {
        match output.field("data"@) {
            Some(data) if data is Table => rich_lines(data),
            _ => seq![("empty rich output"@, NotebookRowKind::Hint)],
        }
    } else {
        seq![("["@ + kind + " output]"@, NotebookRowKind::Hint)]
    }
}

fn typed_output(data: &Value, mime: &str) -> (result: Option<Vec<(String, NotebookRowKind)>>)
    ensures
        match result {
            Some(result) => json_of(*data).field(mime@) is Some && output_views(result@)
                == typed_lines(json_of(*data), mime@),
            None => json_of(*data).field(mime@) is None,
        },
{
    match field(data, mime) {
        Some(value) => {
            let mut front = mime.to_string();
            front.append(": ");
            let list = split_output_lines(value_to_text(value));
            let mut result: Vec<(String, NotebookRowKind)> = Vec::new();
            push_marked(&mut result, front.as_str(), &list, NotebookRowKind::Output);
            assert(output_views(result@) =~= typed_lines(json_of(*data), mime@));
            Some(result)
        },
        None => None,
    }
}

fn find_image(list: &Vec<String>) -> (mime: Option<String>)
    ensures
        match mime {
            Some(mime) => image_key(texts(list@)) == Some(mime@) && texts(list@).contains(mime@),
            None => image_key(texts(list@)) is None,
        },
{
    let ghost all = texts(list@);
    let mut i: usize = 0;
    assert(all.skip(0) =~= all);
    while i < list.len()
        invariant
            i <= list@.len(),
            all == texts(list@),
            image_key(all) == image_key(all.skip(i as int)),
        decreases list@.len() - i,
    {
        assert(all.skip(i as int)[0] == list@[i as int]@);
        assert(all.skip(i as int).drop_first() =~= all.skip(i + 1));
        if starts_with(list[i].as_str(), "image/") {
            assert(all[i as int] == list@[i as int]@);
            return Some(list[i].clone());
        }
        i += 1;
    }
    None
}

fn rich_output(data: &Value, order: &Vec<String>) -> (result: Vec<(String, NotebookRowKind)>)
    requires
        json_of(*data) is Table,
        texts(order@) == json_of(*data)->Table_1,
    ensures
        output_views(result@) == rich_lines(json_of(*data)),
{
    if let Some(result) = typed_output(data, "text/plain") {
        return result;
    }
    if let Some(result) = typed_output(data, "text/markdown") {
        return result;
    }
    if let Some(result) = typed_output(data, "application/json") {
        return result;
    }
    if let Some(result) = typed_output(data, "text/html") {
        return result;
    }
    let mut result: Vec<(String, NotebookRowKind)> = Vec::new();
    match find_image(order) {
        Some(mime) => {
            let encoded: usize = byte_len(field_text(data, mime.as_str()).as_str());
            let mut line = "[".to_string();
            line.append(mime.as_str());
            line.append(" output \u{b7} ");
            push_decimal(&mut line, encoded as u64);
            line.append(" encoded bytes \u{b7} terminal metadata fallback]");
            result.push((line, NotebookRowKind::Hint));
        },
        None => {
            let mut line = "rich output types: ".to_string();
            line.append(join_names(order).as_str());
            result.push((line, NotebookRowKind::Hint));
        },
    }
    assert(output_views(result@) =~= rich_lines(json_of(*data)));
    result
}

/// What is shown of an output: its lines, with their kinds.
pub fn projected_output(output: &Value) -> (result: Vec<(String, NotebookRowKind)>)
    ensures
        output_views(result@) == shown_output(json_of(*output)),
{
    let kind = field_or(output, "output_type", "unknown");
    let ghost value = json_of(*output);
    let mut result: Vec<(String, NotebookRowKind)> = Vec::new();
    proof {
        reveal_strlit("");
        assert(""@ =~= Seq::<char>::empty());
    }
    if same_text(kind.as_str(), "stream") {
        let list = split_output_lines(field_text(output, "text"));
        push_marked(&mut result, "", &list, NotebookRowKind::Output);
        assert(output_views(result@) =~= shown_output(value));
        return result;
    }
    if same_text(kind.as_str(), "error") {
        let mut line = field_or(output, "ename", "Kernel Error");
        line.append(": ");
        line.append(field_or(output, "evalue", "").as_str());
        result.push((line, NotebookRowKind::Error));
        assert(output_views(result@) =~= seq![(line@, NotebookRowKind::Error)]);
        let list = split_output_lines(field_text(output, "traceback"));
        push_marked(&mut result, "", &list, NotebookRowKind::Error);
        assert(output_views(result@) =~= shown_output(value));
        return result;
    }
    if same_text(kind.as_str(), "display_data") || same_text(kind.as_str(), "execute_result") {
        if let Some(data) = field(output, "data") {
            if let Some(order) = keys(data) {
                return rich_output(data, &order);
            }
        }
        result.push(("empty rich output".to_string(), NotebookRowKind::Hint));
        assert(output_views(result@) =~= seq![("empty rich output"@, NotebookRowKind::Hint)]);
        return result;
    }
    let mut line = "[".to_string();
    line.append(kind.as_str());
    line.append(" output]");
    result.push((line, NotebookRowKind::Hint));
    assert(output_views(result@) =~= seq![(line@, NotebookRowKind::Hint)]);
    result
}

/// How many characters of a text take no more than so many bytes.
pub open spec fn fitting(s: Seq<char>, limit: int) -> int
    decreases s.len(),
{
    if utf8_len(s) <= limit || s.len() == 0 {
        s.len() as int
    } else {
        fitting(s.drop_last(), limit)
    }
}

/// A line within the limit, with a mark where it goes on.
pub open spec fn fitted(line: Seq<char>) -> Seq<char> {
    if utf8_len(line) <= MAX_PROJECTED_LINE_BYTES {
        line
    } else {
        line.take(fitting(line, MAX_PROJECTED_LINE_BYTES - 3)).push('\u{2026}')
    }
}

/// A line within the limit.
pub fn bounded_line(line: &str) -> (result: String)
    ensures
        result@ == fitted(line@),
{
    let total: usize = byte_len(line);
    if total <= MAX_PROJECTED_LINE_BYTES {
        return line.to_string();
    }
    let chars = chars_of(line);
    let limit: usize = MAX_PROJECTED_LINE_BYTES - 3;
    let mut bytes: usize = total;
    let mut end: usize = chars.len();
    assert(chars@.take(end as int) =~= line@);
    while end > 0 && bytes > limit
        invariant
            end <= chars@.len(),
            chars@ == line@,
            bytes == utf8_len(chars@.take(end as int)),
            fitting(line@, limit as int) == fitting(chars@.take(end as int), limit as int),
        decreases end,
    {
        proof {
            let shown = chars@.take(end as int);
            assert(shown.drop_last() =~= chars@.take(end - 1));
            lemma_utf8_len_push(chars@.take(end - 1), chars@[end - 1]);
            assert(shown =~= chars@.take(end - 1).push(chars@[end - 1]));
        }
        bytes -= char_len(chars[end - 1]);
        end -= 1;
    }
    let mut result = string_of(&chars, 0, end);
    assert(result@ =~= line@.take(end as int));
    result.push('\u{2026}');
    result
}

/// The cells of a notebook.
pub open spec fn cells_of(notebook: Json) -> Seq<Json> {
    match notebook.field("cells"@) {
        Some(value) => match value.list() {
            Some(list) => list,
            None => Seq::empty(),
        },
        None => Seq::empty(),
    }
}

fn notebook_cells<'a>(notebook: &'a Value) -> (cells: Option<&'a Vec<Value>>)
    ensures
        match cells {
            Some(cells) => json_list(cells@) == cells_of(json_of(*notebook)),
            None => cells_of(json_of(*notebook)) == Seq::<Json>::empty(),
        },
        cells is Some == (json_of(*notebook).field("cells"@) matches Some(value)
            && value.list() is Some),
{
    match field(notebook, "cells") {
        Some(value) => list(value),
        None => None,
    }
}

/// The number of cells of a notebook.
pub fn cell_count(notebook: &Value) -> (count: usize)
    ensures
        count == cells_of(json_of(*notebook)).len(),
{
    match notebook_cells(notebook) {
        Some(cells) => {
            assert(json_list(cells@).len() == cells@.len());
            cells.len()
        },
        None => 0,
    }
}

/// The outputs of a cell that are kept for it.
#[derive(Debug)]
pub struct PreservedOutputs {
    pub id: String,
    pub outputs: Vec<Value>,
}

/// The plain values of some kept outputs.
pub open spec fn preserved_views(list: Seq<PreservedOutputs>) -> Seq<(Seq<char>, Seq<Json>)> {
    Seq::new(list.len(), |i: int| (list[i].id@, json_list(list[i].outputs@)))
}

/// The identity of a cell.
pub open spec fn cell_id(cell: Json) -> Option<Seq<char>> {
    match cell.field("id"@) {
        Some(value) => value.text(),
        None => None,
    }
}

/// The outputs of a cell, where it has some.
pub open spec fn cell_outputs(cell: Json) -> Option<Seq<Json>> {
    match cell.field("outputs"@) {
        Some(value) => match value.list() {
            Some(list) if list.len() > 0 => Some(list),
            _ => None,
        },
        None => None,
    }
}

/// What is kept of the outputs of a notebook as it was read, under the
/// identities of the cells of the notebook as it is now.
pub open spec fn preserved(raw: Seq<Json>, cells: Seq<Json>) -> Seq<(Seq<char>, Seq<Json>)>
    decreases cells.len(),
{
    if cells.len() == 0 {
        Seq::empty()
    } else {
        let front = preserved(raw, cells.drop_last());
        let index = cells.len() - 1;
        match cell_id(cells.last()) {
            Some(id) if index < raw.len() && cell_outputs(raw[index]) is Some => front.push(
                (id, cell_outputs(raw[index])->0),
            ),
            _ => front,
        }
    }
}

fn id_of<'a>(cell: &'a Value) -> (id: Option<&'a str>)
    ensures
        match id {
            Some(id) => cell_id(json_of(*cell)) == Some(id@),
            None => cell_id(json_of(*cell)) is None,
        },
{
    match field(cell, "id") {
        Some(value) => text(value),
        None => None,
    }
}

fn copy_values(values: &Vec<Value>) -> (result: Vec<Value>)
    ensures
        json_list(result@) == json_list(values@),
{
    let mut result: Vec<Value> = Vec::new();
    let mut i: usize = 0;
    while i < values.len()
        invariant
            i <= values@.len(),
            result@.len() == i,
            forall|k: int| 0 <= k < i ==> json_of(#[trigger] result@[k]) == json_of(values@[k]),
        decreases values@.len() - i,
    {
        result.push(copy(&values[i]));
        i += 1;
    }
    assert(json_list(result@) =~= json_list(values@));
    result
}

fn outputs_of(cell: &Value) -> (outputs: Option<Vec<Value>>)
    ensures
        match outputs {
            Some(outputs) => cell_outputs(json_of(*cell)) == Some(json_list(outputs@)),
            None => cell_outputs(json_of(*cell)) is None,
        },
{
    match field(cell, "outputs") {
        Some(value) => match list(value) {
            Some(list) => {
                assert(json_list(list@).len() == list@.len());
                if list.len() > 0 {
                    Some(copy_values(list))
                } else {
                    None
                }
            },
            None => None,
        },
        None => None,
    }
}

/// Keeps the outputs of a notebook as it was read, under the identities of the
/// cells of the notebook as it is now.
pub fn collect_preserved_outputs(raw_notebook: &Value, authority: &Value) -> (result: Vec<
    PreservedOutputs,
>)
    ensures
        preserved_views(result@) == preserved(
            cells_of(json_of(*raw_notebook)),
            cells_of(json_of(*authority)),
        ),
{
    let ghost raw = cells_of(json_of(*raw_notebook));
    let ghost all = cells_of(json_of(*authority));
    let mut result: Vec<PreservedOutputs> = Vec::new();
    assert(preserved_views(result@) =~= Seq::<(Seq<char>, Seq<Json>)>::empty());
    let raw_cells = match notebook_cells(raw_notebook) {
        Some(cells) => cells,
        None => {
            proof {
                lemma_nothing_preserved(raw, all);
            }
            return result;
        },
    };
    let cells = match notebook_cells(authority) {
        Some(cells) => cells,
        None => {
            return result;
        },
    };
    let mut i: usize = 0;
    assert(all.take(0) =~= Seq::<Json>::empty());
    while i < cells.len()
        invariant
            i <= cells@.len(),
            raw == json_list(raw_cells@),
            all == json_list(cells@),
            preserved_views(result@) == preserved(raw, all.take(i as int)),
        decreases cells@.len() - i,
    {
        let ghost before = preserved_views(result@);
        proof {
            assert(all.take(i + 1).drop_last() =~= all.take(i as int));
            assert(all.take(i + 1).last() == json_of(cells@[i as int]));
            assert(raw.len() == raw_cells@.len());
        }
        if let Some(id) = id_of(&cells[i]) {
            if i < raw_cells.len() {
                assert(raw[i as int] == json_of(raw_cells@[i as int]));
                if let Some(outputs) = outputs_of(&raw_cells[i]) {
                    result.push(PreservedOutputs { id: id.to_string(), outputs });
                    assert(preserved_views(result@) =~= before.push(
                        (id@, json_list(outputs@)),
                    ));
                }
            }
        }
        i += 1;
    }
    assert(all.take(i as int) =~= all);
    result
}

proof fn lemma_nothing_preserved(raw: Seq<Json>, cells: Seq<Json>)
    requires
        raw.len() == 0,
    ensures
        preserved(raw, cells) == Seq::<(Seq<char>, Seq<Json>)>::empty(),
    decreases cells.len(),
{
    if cells.len() > 0 {
        lemma_nothing_preserved(raw, cells.drop_last());
    }
}

/// The outputs that are kept for a cell; of several, the last.
pub open spec fn kept_outputs(list: Seq<(Seq<char>, Seq<Json>)>, id: Seq<char>) -> Option<Seq<Json>>
    decreases list.len(),
{
    if list.len() == 0 {
        None
    } else if list.last().0 == id {
        Some(list.last().1)
    } else {
        kept_outputs(list.drop_last(), id)
    }
}

/// The outputs that are kept for the cell of this value.
pub open spec fn outputs_for(list: Seq<(Seq<char>, Seq<Json>)>, cell: Json) -> Option<Seq<Json>> {
    match cell_id(cell) {
        Some(id) => kept_outputs(list, id),
        None => None,
    }
}

fn find_outputs(list: &Vec<PreservedOutputs>, id: &str) -> (index: Option<usize>)
    ensures
        match index {
            Some(i) => i < list@.len() && kept_outputs(preserved_views(list@), id@) == Some(
                json_list(list@[i as int].outputs@),
            ),
            None => kept_outputs(preserved_views(list@), id@) is None,
        },
{
    let ghost all = preserved_views(list@);
    let mut count: usize = list.len();
    assert(all.take(count as int) =~= all);
    while count > 0
        invariant
            count <= list@.len(),
            all == preserved_views(list@),
            kept_outputs(all, id@) == kept_outputs(all.take(count as int), id@),
        decreases count,
    {
        assert(all.take(count as int).drop_last() =~= all.take(count - 1));
        assert(all.take(count as int).last() == (
            list@[count - 1].id@,
            json_list(list@[count - 1].outputs@),
        ));
        if same_text(list[count - 1].id.as_str(), id) {
            return Some(count - 1);
        }
        count -= 1;
    }
    None
}

/// Whether a cell is another one with the outputs that are kept for it.
pub open spec fn merged_cell(
    list: Seq<(Seq<char>, Seq<Json>)>,
    before: Json,
    after: Json,
) -> bool {
    match outputs_for(list, before) {
        Some(outputs) => updated(before, "outputs"@, Json::List(outputs), after),
        None => after == before,
    }
}

/// Whether a notebook is another one with the outputs that are kept for its
/// cells.
pub open spec fn merged(
    list: Seq<(Seq<char>, Seq<Json>)>,
    before: Json,
    after: Json,
) -> bool {
    if before.field("cells"@) matches Some(value) && value.list() is Some {
        &&& updated(before, "cells"@, Json::List(cells_of(after)), after)
        &&& cells_of(after).len() == cells_of(before).len()
        &&& forall|i: int|
            0 <= i < cells_of(before).len() ==> merged_cell(
                list,
                #[trigger] cells_of(before)[i],
                cells_of(after)[i],
            )
    } else {
        after == before
    }
}

/// Puts the outputs that are kept into the cells of a notebook.
pub fn merge_preserved_outputs(authority: Value, preserved_outputs: &Vec<PreservedOutputs>) -> (
    result: Value)
    ensures
        merged(
            preserved_views(preserved_outputs@),
            json_of(authority),
            json_of(result),
        ),
{
    let ghost kept_list = preserved_views(preserved_outputs@);
    let ghost before = json_of(authority);
    let ghost all = cells_of(before);
    let cells = match notebook_cells(&authority) {
        Some(cells) => cells,
        None => {
            return authority;
        },
    };
    let mut result: Vec<Value> = Vec::new();
    let mut i: usize = 0;
    while i < cells.len()
        invariant
            i <= cells@.len(),
            all == json_list(cells@),
            kept_list == preserved_views(preserved_outputs@),
            result@.len() == i,
            forall|k: int|
                0 <= k < i ==> merged_cell(kept_list, all[k], json_of(#[trigger] result@[k])),
        decreases cells@.len() - i,
    {
        let cell = &cells[i];
        assert(all[i as int] == json_of(*cell));
        let found = match id_of(cell) {
            Some(id) => find_outputs(preserved_outputs, id),
            None => None,
        };
        match found {
            Some(k) => {
                assert(json_of(*cell).table() is Some);
                let outputs = list_value(copy_values(&preserved_outputs[k].outputs));
                result.push(with_field(copy(cell), "outputs", outputs));
            },
            None => result.push(copy(cell)),
        }
        i += 1;
    }
    let ghost after_cells = json_list(result@);
    let value = list_value(result);
    let merged_value = with_field(authority, "cells", value);
    proof {
        let after = json_of(merged_value);
        assert(after.field("cells"@) == Some(Json::List(after_cells)));
        assert(cells_of(after) == after_cells);
        assert forall|i: int| 0 <= i < all.len() implies merged_cell(
            kept_list,
            #[trigger] all[i],
            after_cells[i],
        ) by {
            assert(after_cells[i] == json_of(result@[i]));
        }
    }
    merged_value
}

/// Outputs that are kept come back: each cell that has some shows them, and
/// the others are as they were.
pub proof fn kept_outputs_come_back(
    list: Seq<(Seq<char>, Seq<Json>)>,
    before: Json,
    after: Json,
    i: int,
)
    requires
        merged(list, before, after),
        0 <= i < cells_of(before).len(),
    ensures
        outputs_for(list, cells_of(before)[i]) matches Some(outputs) ==> cells_of(after)[i].field(
            "outputs"@,
        ) == Some(Json::List(outputs)),
        outputs_for(list, cells_of(before)[i]) is None ==> cells_of(after)[i]
            == cells_of(before)[i],
        cell_id(cells_of(after)[i]) == cell_id(cells_of(before)[i]),
{
    let cell = cells_of(before)[i];
    assert(merged_cell(list, cell, cells_of(after)[i]));
    reveal_strlit("id");
    reveal_strlit("outputs");
    assert("id"@.len() != "outputs"@.len());
}

#[derive(Clone, Copy, Debug, PartialEq, Eq, Structural)]
pub enum NotebookMode {
    Command,
    Edit,
}

impl NotebookMode {
    pub open spec fn word(self) -> Seq<char> {
        match self {
            NotebookMode::Command => "command"@,
            NotebookMode::Edit => "edit"@,
        }
    }

    pub fn label(self) -> (label: &'static str)
        ensures
            label@ == self.word(),
    {
        match self {
            NotebookMode::Command => "command",
            NotebookMode::Edit => "edit",
        }
    }
}

/// A row of a notebook.
#[derive(Clone, Debug, PartialEq, Eq)]
pub struct NotebookRow {
    pub text: String,
    pub selected: bool,
    pub kind: NotebookRowKind,
}

/// The plain values of a [`NotebookRow`].
pub struct BookRow {
    pub text: Seq<char>,
    pub selected: bool,
    pub kind: NotebookRowKind,
}

impl View for NotebookRow {
    type V = BookRow;

    open spec fn view(&self) -> BookRow {
        BookRow { text: self.text@, selected: self.selected, kind: self.kind }
    }
}

pub open spec fn book_rows(list: Seq<NotebookRow>) -> Seq<BookRow> {
    Seq::new(list.len(), |i: int| list[i]@)
}

pub open spec fn book_row(text: Seq<char>, selected: bool, kind: NotebookRowKind) -> BookRow {
    BookRow { text, selected, kind }
}

fn push_book_row(rows: &mut Vec<NotebookRow>, text: String, selected: bool, kind: NotebookRowKind)
    ensures
        book_rows(final(rows)@) == book_rows(old(rows)@).push(book_row(text@, selected, kind)),
{
    rows.push(NotebookRow { text, selected, kind });
    assert(book_rows(rows@) =~= book_rows(old(rows)@).push(book_row(text@, selected, kind)));
}

/// The words over a cell.
pub open spec fn header_text(cell: Json, index: int, selected: bool) -> Seq<char> {
    (if selected {
        "\u{25b6}"@
    } else {
        " "@
    }) + " Cell "@ + decimal((index + 1) as nat) + " \u{b7} "@ + text_or(
        cell,
        "cell_type"@,
        "unknown"@,
    ) + " \u{b7} In["@ + execution_text(cell) + "]"@
}

/// How often a cell was run.
pub open spec fn execution_text(cell: Json) -> Seq<char> {
    match cell.field("execution_count"@) {
        Some(value) if !(value is Null) => value_text(value),
        _ => " "@,
    }
}

/// The rows for the source of a cell.
pub open spec fn source_rows(cell: Json, selected: bool) -> Seq<BookRow> {
    let source = lines(optional_text(cell.field("source"@)));
    if source.len() == 0 {
        seq![book_row("  \u{2502} "@, selected, NotebookRowKind::Source)]
    } else {
        Seq::new(
            least(source.len() as int, MAX_SOURCE_LINES_PER_CELL as int) as nat,
            |i: int|
                book_row(
                    "  \u{2502} "@ + fitted(source[i]),
                    selected,
                    NotebookRowKind::Source,
                ),
        )
    }
}

/// The lines of all outputs.
pub open spec fn all_outputs(list: Seq<Json>) -> Seq<(Seq<char>, NotebookRowKind)>
    decreases list.len(),
{
    if list.len() == 0 {
        Seq::empty()
    } else {
        all_outputs(list.drop_last()) + shown_output(list.last())
    }
}

/// The row for a line of an output.
pub open spec fn output_row(line: (Seq<char>, NotebookRowKind), selected: bool) -> BookRow {
    book_row("  \u{2570}\u{2500} "@ + fitted(line.0), selected, line.1)
}

/// The rows for the outputs of a cell: no more than the limit, and a hint
/// where there are more.
pub open spec fn output_rows(all: Seq<(Seq<char>, NotebookRowKind)>, selected: bool) -> Seq<
    BookRow,
> {
    let shown = Seq::new(
        least(all.len() as int, MAX_OUTPUT_LINES_PER_CELL as int) as nat,
        |i: int| output_row(all[i], selected),
    );
    if all.len() > MAX_OUTPUT_LINES_PER_CELL {
        shown.push(
            book_row(
                "  \u{2570}\u{2500} \u{2026} output projection limit reached"@,
                selected,
                NotebookRowKind::Hint,
            ),
        )
    } else {
        shown
    }
}

/// The outputs of a cell, whether it has some or not.
pub open spec fn output_list(cell: Json) -> Seq<Json> {
    match cell.field("outputs"@) {
        Some(value) => match value.list() {
            Some(list) => list,
            None => Seq::empty(),
        },
        None => Seq::empty(),
    }
}

/// The rows for a cell.
pub open spec fn cell_rows(cell: Json, index: int, selected: bool) -> Seq<BookRow> {
    seq![book_row(header_text(cell, index, selected), selected, NotebookRowKind::CellHeader)]
        + source_rows(cell, selected) + output_rows(all_outputs(output_list(cell)), selected)
        + seq![book_row(Seq::empty(), selected, NotebookRowKind::Hint)]
}

/// The rows for some cells.
pub open spec fn cells_rows(cells: Seq<Json>, selected: int) -> Seq<BookRow>
    decreases cells.len(),
{
    if cells.len() == 0 {
        Seq::empty()
    } else {
        let index = cells.len() - 1;
        cells_rows(cells.drop_last(), selected) + cell_rows(
            cells.last(),
            index,
            index == selected,
        )
    }
}

fn push_source(rows: &mut Vec<NotebookRow>, cell: &Value, selected: bool)
    ensures
        book_rows(final(rows)@) == book_rows(old(rows)@) + source_rows(json_of(*cell), selected),
{
    let ghost before = book_rows(rows@);
    let ghost all = source_rows(json_of(*cell), selected);
    let source = lines_of(field_text(cell, "source").as_str());
    let ghost list = lines(optional_text(json_of(*cell).field("source"@)));
    assert(list.len() == source@.len());
    if source.len() == 0 {
        push_book_row(rows, "  \u{2502} ".to_string(), selected, NotebookRowKind::Source);
        assert(book_rows(rows@) =~= before + all);
        return ;
    }
    let count: usize = at_most(source.len(), MAX_SOURCE_LINES_PER_CELL);
    let mut i: usize = 0;
    assert(before + all.take(0) =~= before);
    while i < count
        invariant
            i <= count <= source@.len(),
            count == all.len(),
            list == texts(source@),
            list.len() > 0,
            list == lines(optional_text(json_of(*cell).field("source"@))),
            all == source_rows(json_of(*cell), selected),
            book_rows(rows@) == before + all.take(i as int),
        decreases count - i,
    {
        let mut line = "  \u{2502} ".to_string();
        line.append(bounded_line(source[i].as_str()).as_str());
        proof {
            assert(list[i as int] == source@[i as int]@);
            assert(all[i as int] == book_row(line@, selected, NotebookRowKind::Source));
        }
        push_book_row(rows, line, selected, NotebookRowKind::Source);
        i += 1;
        assert(book_rows(rows@) =~= before + all.take(i as int));
    }
    assert(all.take(i as int) =~= all);
}

/// Adds the rows for the lines of one output, as far as the limit lets it.
fn push_output(
    rows: &mut Vec<NotebookRow>,
    output: &Value,
    selected: bool,
    count: usize,
    front: Ghost<Seq<(Seq<char>, NotebookRowKind)>>,
) -> (total: usize)
    requires
        count == front@.len(),
        count <= MAX_OUTPUT_LINES_PER_CELL,
    ensures
        ({
            let all = front@ + shown_output(json_of(*output));
            &&& total == least(all.len() as int, MAX_OUTPUT_LINES_PER_CELL + 1)
            &&& book_rows(old(rows)@).len() >= count && book_rows(old(rows)@).skip(
                book_rows(old(rows)@).len() - count,
            ) == output_rows(front@, selected) ==> book_rows(final(rows)@) == book_rows(
                old(rows)@,
            ).take(book_rows(old(rows)@).len() - count) + output_rows(all, selected)
        }),
{
    let lines_list = projected_output(output);
    let ghost more = shown_output(json_of(*output));
    let ghost all = front@ + more;
    let ghost before = book_rows(rows@);
    let ghost base = before.take(before.len() - count);
    let ghost fits = before.len() >= count && before.skip(before.len() - count) == output_rows(
        front@,
        selected,
    );
    proof {
        if fits {
            assert(before =~= base + before.skip(before.len() - count));
        }
        assert(front@ + more.take(0) =~= front@);
        assert(more.len() == lines_list@.len());
    }
    let mut total: usize = count;
    let mut i: usize = 0;
    while i < lines_list.len()
        invariant
            i <= lines_list@.len(),
            more == output_views(lines_list@),
            more == shown_output(json_of(*output)),
            all == front@ + more,
            before == book_rows(old(rows)@),
            base == before.take(before.len() - count),
            fits == (before.len() >= count && before.skip(before.len() - count) == output_rows(
                front@,
                selected,
            )),
            count == front@.len(),
            total == count + i,
            total <= MAX_OUTPUT_LINES_PER_CELL,
            fits ==> book_rows(rows@) == base + output_rows(
                front@ + more.take(i as int),
                selected,
            ),
        decreases lines_list@.len() - i,
    {
        let ghost seen = front@ + more.take(i as int);
        let ghost next = front@ + more.take(i + 1);
        proof {
            assert(more[i as int] == (lines_list@[i as int].0@, lines_list@[i as int].1));
            assert(next =~= seen.push(more[i as int]));
            assert(seen.len() == total);
        }
        if total >= MAX_OUTPUT_LINES_PER_CELL {
            push_book_row(
                rows,
                "  \u{2570}\u{2500} \u{2026} output projection limit reached".to_string(),
                selected,
                NotebookRowKind::Hint,
            );
            proof {
                assert(seen =~= all.take(MAX_OUTPUT_LINES_PER_CELL as int));
                assert(all.len() > MAX_OUTPUT_LINES_PER_CELL);
                if fits {
                    assert(book_rows(rows@) =~= base + output_rows(all, selected));
                }
            }
            return MAX_OUTPUT_LINES_PER_CELL + 1;
        }
        let (text, kind) = (&lines_list[i].0, lines_list[i].1);
        let mut line = "  \u{2570}\u{2500} ".to_string();
        line.append(bounded_line(text.as_str()).as_str());
        push_book_row(rows, line, selected, kind);
        proof {
            if fits {
                assert(output_rows(next, selected) =~= output_rows(seen, selected).push(
                    output_row(more[i as int], selected),
                ));
                assert(book_rows(rows@) =~= base + output_rows(next, selected));
            }
        }
        total += 1;
        i += 1;
    }
    assert(more.take(i as int) =~= more);
    total
}

fn push_outputs(rows: &mut Vec<NotebookRow>, cell: &Value, selected: bool)
    ensures
        book_rows(final(rows)@) == book_rows(old(rows)@) + output_rows(
            all_outputs(output_list(json_of(*cell))),
            selected,
        ),
{
    let ghost before = book_rows(rows@);
    let ghost nothing = Seq::<(Seq<char>, NotebookRowKind)>::empty();
    assert(before + output_rows(nothing, selected) =~= before);
    let outputs = match field(cell, "outputs") {
        Some(value) => match list(value) {
            Some(outputs) => outputs,
            None => {
                return ;
            },
        },
        None => {
            return ;
        },
    };
    let ghost all = json_list(outputs@);
    let mut count: usize = 0;
    let mut i: usize = 0;
    assert(all.take(0) =~= Seq::<Json>::empty());
    while i < outputs.len()
        invariant
            i <= outputs@.len(),
            all == json_list(outputs@),
            all == output_list(json_of(*cell)),
            before == book_rows(old(rows)@),
            count <= MAX_OUTPUT_LINES_PER_CELL,
            count == all_outputs(all.take(i as int)).len(),
            book_rows(rows@) == before + output_rows(all_outputs(all.take(i as int)), selected),
        decreases outputs@.len() - i,
    {
        let ghost front = all_outputs(all.take(i as int));
        let ghost held = book_rows(rows@);
        proof {
            assert(all.take(i + 1).drop_last() =~= all.take(i as int));
            assert(all.take(i + 1).last() == json_of(outputs@[i as int]));
            assert(held.take(held.len() - count) =~= before);
            assert(held.skip(held.len() - count) =~= output_rows(front, selected));
        }
        count = push_output(rows, &outputs[i], selected, count, Ghost(front));
        if count > MAX_OUTPUT_LINES_PER_CELL {
            proof {
                lemma_limit_reached(all, i + 1, selected);
            }
            return ;
        }
        i += 1;
    }
    assert(all.take(i as int) =~= all);
}

/// What comes behind the limit is not shown.
proof fn lemma_limit_reached(list: Seq<Json>, count: int, selected: bool)
    requires
        0 <= count <= list.len(),
        all_outputs(list.take(count)).len() > MAX_OUTPUT_LINES_PER_CELL,
    ensures
        output_rows(all_outputs(list), selected) == output_rows(
            all_outputs(list.take(count)),
            selected,
        ),
        all_outputs(list).len() > MAX_OUTPUT_LINES_PER_CELL,
    decreases list.len(),
{
    if count == list.len() {
        assert(list.take(count) =~= list);
    } else {
        assert(list.drop_last().take(count) =~= list.take(count));
        lemma_limit_reached(list.drop_last(), count, selected);
        let front = all_outputs(list.drop_last());
        assert(output_rows(all_outputs(list), selected) =~= output_rows(front, selected));
    }
}

fn push_cell(rows: &mut Vec<NotebookRow>, cell: &Value, index: usize, selected: bool)
    requires
        index < usize::MAX,
    ensures
        book_rows(final(rows)@) == book_rows(old(rows)@) + cell_rows(
            json_of(*cell),
            index as int,
            selected,
        ),
{
    let ghost before = book_rows(rows@);
    let ghost value = json_of(*cell);
    let mut text = if selected {
        "\u{25b6}".to_string()
    } else {
        " ".to_string()
    };
    text.append(" Cell ");
    push_decimal(&mut text, (index + 1) as u64);
    text.append(" \u{b7} ");
    text.append(field_or(cell, "cell_type", "unknown").as_str());
    text.append(" \u{b7} In[");
    let execution = match field(cell, "execution_count") {
        Some(value) => if is_null(value) {
            " ".to_string()
        } else {
            value_to_text(value)
        },
        None => " ".to_string(),
    };
    text.append(execution.as_str());
    text.append("]");
    assert(text@ == header_text(value, index as int, selected));
    push_book_row(rows, text, selected, NotebookRowKind::CellHeader);
    push_source(rows, cell, selected);
    push_outputs(rows, cell, selected);
    let blank = String::new();
    assert(blank@ =~= Seq::<char>::empty());
    push_book_row(rows, blank, selected, NotebookRowKind::Hint);
    assert(book_rows(rows@) =~= before + cell_rows(value, index as int, selected));
}

/// The name of the kernel of a notebook.
pub open spec fn kernel_name(notebook: Json) -> Seq<char> {
    let spec_value = match notebook.field("metadata"@) {
        Some(metadata) => metadata.field("kernelspec"@),
        None => None,
    };
    let named = match spec_value {
        Some(kernel) => match kernel.field("display_name"@) {
            Some(name) => Some(name),
            None => kernel.field("name"@),
        },
        None => None,
    };
    match named {
        Some(name) => match name.text() {
            Some(text) => text,
            None => "auto-detect"@,
        },
        None => "auto-detect"@,
    }
}

fn kernel_of(notebook: &Value) -> (name: String)
    ensures
        name@ == kernel_name(json_of(*notebook)),
{
    if let Some(metadata) = field(notebook, "metadata") {
        if let Some(kernel) = field(metadata, "kernelspec") {
            let named = match field(kernel, "display_name") {
                Some(name) => Some(name),
                None => field(kernel, "name"),
            };
            if let Some(name) = named {
                if let Some(text) = text(name) {
                    return text.to_string();
                }
            }
        }
    }
    "auto-detect".to_string()
}

/// The words over a notebook.
pub open spec fn title_text(notebook: Json, mode: NotebookMode) -> Seq<char> {
    let count = cells_of(notebook).len();
    " Notebook \u{b7} "@ + kernel_name(notebook) + " \u{b7} "@ + decimal(count) + " cell"@ + (
    if count == 1 {
        ""@
    } else {
        "s"@
    }) + " \u{b7} "@ + mode.word() + " mode "@
}

/// The cells of a notebook that are shown.
pub open spec fn shown_cells(notebook: Json) -> Seq<Json> {
    cells_of(notebook).take(
        least(cells_of(notebook).len() as int, MAX_NOTEBOOK_CELLS as int),
    )
}

/// The rows for a notebook.
pub open spec fn notebook_rows(notebook: Json, selected: int, mode: NotebookMode) -> Seq<BookRow> {
    let count = cells_of(notebook).len();
    let shown = seq![book_row(title_text(notebook, mode), false, NotebookRowKind::Title)]
        + cells_rows(shown_cells(notebook), selected);
    if count > MAX_NOTEBOOK_CELLS {
        shown.push(
            book_row(
                "\u{2026} "@ + decimal((count - MAX_NOTEBOOK_CELLS) as nat)
                    + " cells omitted by the "@ + decimal(MAX_NOTEBOOK_CELLS as nat)
                    + "-cell projection limit"@,
                false,
                NotebookRowKind::Hint,
            ),
        )
    } else {
        shown
    }
}

/// The row of the selected cell.
pub open spec fn selected_row(notebook: Json, selected: int) -> int {
    if selected < shown_cells(notebook).len() {
        1 + cells_rows(shown_cells(notebook).take(selected), selected).len() as int
    } else {
        0
    }
}

/// The first row that is shown: the one asked for, unless the selected cell
/// would be out of sight.
pub open spec fn scrolled(count: int, row: int, requested: int, height: int) -> int {
    let body = greatest(above_zero(height - 1), 1);
    let last = above_zero(count - body);
    let scroll = least(requested, last);
    let shown = if row < scroll {
        row
    } else if row >= scroll + body {
        above_zero(row - (body - 1))
    } else {
        scroll
    };
    least(shown, last)
}

/// A notebook as it is shown.
#[derive(Clone, Debug, PartialEq, Eq)]
pub struct NotebookSnapshot {
    pub rows: Vec<NotebookRow>,
    pub scroll: usize,
    pub status: String,
}

/// The selected cell, kept among the cells.
pub open spec fn cell_within(selected: int, count: int) -> int {
    least(selected, above_zero(count - 1))
}

/// The status under a notebook.
pub open spec fn status_text(notice: Seq<char>) -> Seq<char> {
    notice
        + "  |  Ctrl-S save \u{b7} Ctrl-W close \u{b7} \u{2191}/\u{2193} cell \u{b7} Enter edit \u{b7} Ctrl-Enter run"@
}

/// Shows a notebook.
pub fn snapshot_from_value(
    notebook: &Value,
    selected_cell: usize,
    mode: NotebookMode,
    requested_scroll: usize,
    height: usize,
    notice: &str,
) -> (snapshot: NotebookSnapshot)
    ensures
        ({
            let value = json_of(*notebook);
            let selected = cell_within(selected_cell as int, cells_of(value).len() as int);
            let rows = notebook_rows(value, selected, mode);
            &&& book_rows(snapshot.rows@) == rows
            &&& snapshot.scroll == scrolled(
                rows.len() as int,
                selected_row(value, selected),
                requested_scroll as int,
                height as int,
            )
            &&& snapshot.status@ == status_text(notice@)
        }),
{
    let ghost value = json_of(*notebook);
    let count: usize = cell_count(notebook);
    let selected: usize = at_most(selected_cell, count.saturating_sub(1));
    let mut rows: Vec<NotebookRow> = Vec::new();
    let mut title = " Notebook \u{b7} ".to_string();
    title.append(kernel_of(notebook).as_str());
    title.append(" \u{b7} ");
    push_decimal(&mut title, count as u64);
    title.append(" cell");
    title.append(
        if count == 1 {
            ""
        } else {
            "s"
        },
    );
    title.append(" \u{b7} ");
    title.append(mode.label());
    title.append(" mode ");
    push_book_row(&mut rows, title, false, NotebookRowKind::Title);
    let ghost first = book_row(title_text(value, mode), false, NotebookRowKind::Title);
    assert(book_rows(rows@) =~= seq![first]);
    let ghost shown = shown_cells(value);
    let mut start: usize = 0;
    if let Some(cells) = notebook_cells(notebook) {
        assert(json_list(cells@).len() == cells@.len());
        let limit: usize = at_most(cells.len(), MAX_NOTEBOOK_CELLS);
        let mut index: usize = 0;
        assert(shown.take(0) =~= Seq::<Json>::empty());
        assert(seq![first] + cells_rows(shown.take(0), selected as int) =~= seq![first]);
        while index < limit
            invariant
                index <= limit <= cells@.len(),
                limit == shown.len(),
                limit <= MAX_NOTEBOOK_CELLS,
                json_list(cells@) == cells_of(value),
                shown == shown_cells(value),
                book_rows(rows@) == seq![first] + cells_rows(
                    shown.take(index as int),
                    selected as int,
                ),
                start == (if selected < index {
                    1 + cells_rows(shown.take(selected as int), selected as int).len()
                } else {
                    0
                }),
            decreases limit - index,
        {
            let ghost before = book_rows(rows@);
            proof {
                assert(shown.take(index + 1).drop_last() =~= shown.take(index as int));
                assert(shown.take(index + 1).last() == json_of(cells@[index as int])) by {
                    assert(cells_of(value)[index as int] == json_of(cells@[index as int]));
                }
            }
            if index == selected {
                assert(book_rows(rows@).len() == rows@.len());
                start = rows.len();
            }
            push_cell(&mut rows, &cells[index], index, index == selected);
            assert(book_rows(rows@) =~= seq![first] + cells_rows(
                shown.take(index + 1),
                selected as int,
            ));
            index += 1;
        }
        assert(shown.take(index as int) =~= shown);
    } else {
        assert(shown =~= Seq::<Json>::empty());
        assert(seq![first] + cells_rows(shown, selected as int) =~= seq![first]);
    }
    if count > MAX_NOTEBOOK_CELLS {
        let mut text = "\u{2026} ".to_string();
        push_decimal(&mut text, (count - MAX_NOTEBOOK_CELLS) as u64);
        text.append(" cells omitted by the ");
        push_decimal(&mut text, MAX_NOTEBOOK_CELLS as u64);
        text.append("-cell projection limit");
        push_book_row(&mut rows, text, false, NotebookRowKind::Hint);
    }
    assert(book_rows(rows@) =~= notebook_rows(value, selected as int, mode));
    assert(book_rows(rows@).len() == rows@.len());
    let scroll: usize = scroll_to(rows.len(), start, requested_scroll, height);
    let mut status = notice.to_string();
    status.append(
        "  |  Ctrl-S save \u{b7} Ctrl-W close \u{b7} \u{2191}/\u{2193} cell \u{b7} Enter edit \u{b7} Ctrl-Enter run",
    );
    NotebookSnapshot { rows, scroll, status }
}

fn scroll_to(count: usize, row: usize, requested: usize, height: usize) -> (scroll: usize)
    ensures
        scroll == scrolled(count as int, row as int, requested as int, height as int),
{
    let body: usize = if height <= 2 {
        1
    } else {
        height - 1
    };
    let last: usize = count.saturating_sub(body);
    let scroll: usize = at_most(requested, last);
    let shown: usize = if row < scroll {
        row
    } else if row - scroll >= body {
        row.saturating_sub(body - 1)
    } else {
        scroll
    };
    at_most(shown, last)
}

proof fn lemma_cells_before(cells: Seq<Json>, selected: int, count: int)
    requires
        0 <= count <= cells.len(),
    ensures
        cells_rows(cells.take(count), selected).len() <= cells_rows(cells, selected).len(),
        count < cells.len() ==> cells_rows(cells.take(count), selected).len() < cells_rows(
            cells,
            selected,
        ).len(),
    decreases cells.len(),
{
    if count == cells.len() {
        assert(cells.take(count) =~= cells);
    } else {
        assert(cells.drop_last().take(count) =~= cells.take(count));
        lemma_cells_before(cells.drop_last(), selected, count);
    }
}

/// Whatever row was asked for, the first row of the selected cell is shown.
pub proof fn the_selected_cell_is_shown(
    notebook: Json,
    selected: int,
    mode: NotebookMode,
    requested: int,
    height: int,
)
    requires
        0 <= selected,
        0 <= requested,
        0 <= height,
    ensures
        ({
            let rows = notebook_rows(notebook, selected, mode);
            let row = selected_row(notebook, selected);
            let scroll = scrolled(rows.len() as int, row, requested, height);
            0 <= scroll <= row < scroll + greatest(above_zero(height - 1), 1)
        }),
{
    let shown = shown_cells(notebook);
    if selected < shown.len() {
        lemma_cells_before(shown, selected, selected);
    }
}

/// A cell never shows more lines of output than the limit, and tells where
/// there are more.
pub proof fn outputs_are_bounded(cell: Json, selected: bool)
    ensures
        ({
            let all = all_outputs(output_list(cell));
            let rows = output_rows(all, selected);
            &&& rows.len() <= MAX_OUTPUT_LINES_PER_CELL + 1
            &&& rows.len() == MAX_OUTPUT_LINES_PER_CELL + 1 <==> all.len()
                > MAX_OUTPUT_LINES_PER_CELL
        }),
{
}

/// The style of a row.
pub open spec fn row_parts(row: BookRow) -> StyleParts {
    let own = match row.kind {
        NotebookRowKind::Title => with_modifiers(
            with_color(no_parts(), HostColor::Ansi(6), true),
            BOLD,
        ),
        NotebookRowKind::CellHeader => with_color(no_parts(), HostColor::Ansi(3), true),
        NotebookRowKind::Source => with_color(no_parts(), HostColor::Ansi(15), true),
        NotebookRowKind::Output => with_color(no_parts(), HostColor::Ansi(2), true),
        NotebookRowKind::Error => with_color(no_parts(), HostColor::Ansi(1), true),
        NotebookRowKind::Hint => with_color(no_parts(), HostColor::Ansi(8), true),
    };
    if row.selected {
        with_color(own, HostColor::Ansi(8), false)
    } else {
        own
    }
}

fn row_style(row: &NotebookRow) -> (style: Style)
    ensures
        style_parts(style) == row_parts(row@),
{
    let plain = plain_style();
    let mut style = match row.kind {
        NotebookRowKind::Title => add_modifiers(colored(plain, HostColor::Ansi(6), true), BOLD),
        NotebookRowKind::CellHeader => colored(plain, HostColor::Ansi(3), true),
        NotebookRowKind::Source => colored(plain, HostColor::Ansi(15), true),
        NotebookRowKind::Output => colored(plain, HostColor::Ansi(2), true),
        NotebookRowKind::Error => colored(plain, HostColor::Ansi(1), true),
        NotebookRowKind::Hint => colored(plain, HostColor::Ansi(8), true),
    };
    if row.selected {
        style = colored(style, HostColor::Ansi(8), false);
    }
    style
}

/// What is drawn for a text on a row of a rectangle.
pub open spec fn line_strokes(area: Rect, y: int, text: Seq<char>, style: StyleParts) -> Seq<
    Stroke,
> {
    seq![
        Stroke::Fill { area: Rect::spec_new(area.x, y as u16, area.width, 1), style },
        Stroke::Text { x: area.x, y: y as u16, text, width: area.width as usize, style },
    ]
}

/// What is drawn for the first rows of a notebook.
pub open spec fn body_strokes(rows: Seq<BookRow>, area: Rect, count: int) -> Seq<Stroke>
    decreases count,
{
    if count <= 0 {
        Seq::empty()
    } else {
        body_strokes(rows, area, count - 1) + line_strokes(
            area,
            coordinate(area.y + count - 1),
            rows[count - 1].text,
            row_parts(rows[count - 1]),
        )
    }
}

/// The rows of a notebook from the first that is shown on.
pub open spec fn rows_from(rows: Seq<BookRow>, scroll: int) -> Seq<BookRow> {
    rows.skip(least(scroll, rows.len() as int))
}

/// What is drawn for a notebook.
pub open spec fn notebook_strokes(
    rows: Seq<BookRow>,
    scroll: int,
    status: Seq<char>,
    area: Rect,
) -> Seq<Stroke> {
    let white = with_color(
        with_color(no_parts(), HostColor::Ansi(0), false),
        HostColor::Ansi(15),
        true,
    );
    let bar = with_color(
        with_color(no_parts(), HostColor::Ansi(8), false),
        HostColor::Ansi(15),
        true,
    );
    let shown = rows_from(rows, scroll);
    if area.spec_is_empty() {
        Seq::empty()
    } else {
        seq![Stroke::Fill { area, style: white }] + body_strokes(
            shown,
            area,
            least(shown.len() as int, area.height - 1),
        ) + line_strokes(area, coordinate(area.y + area.height - 1), status, bar)
    }
}

/// Draws a notebook.
pub struct NotebookWidget<'a> {
    snapshot: &'a NotebookSnapshot,
}

proof fn lemma_body_starts_on(rows: Seq<BookRow>, area: Rect, count: int, bounds: Rect)
    requires
        lies_on(area, bounds),
        count <= area.height,
    ensures
        all_start_on(bounds, body_strokes(rows, area, count)),
    decreases count,
{
    if count > 0 {
        lemma_body_starts_on(rows, area, count - 1, bounds);
    }
}

proof fn lemma_plain_body(rows: Seq<BookRow>, area: Rect, count: int)
    ensures
        no_paragraphs(body_strokes(rows, area, count)),
    decreases count,
{
    if count > 0 {
        lemma_plain_body(rows, area, count - 1);
    }
}

proof fn lemma_plain_notebook(rows: Seq<BookRow>, scroll: int, status: Seq<char>, area: Rect)
    ensures
        no_paragraphs(notebook_strokes(rows, scroll, status, area)),
{
    let shown = rows_from(rows, scroll);
    lemma_plain_body(shown, area, least(shown.len() as int, area.height - 1));
}

/// The drawing of a notebook that lies on a buffer starts on it.
pub proof fn notebooks_on_a_buffer_fit(
    rows: Seq<BookRow>,
    scroll: int,
    status: Seq<char>,
    area: Rect,
    bounds: Rect,
)
    requires
        !area.spec_is_empty() ==> lies_on(area, bounds),
    ensures
        all_start_on(bounds, notebook_strokes(rows, scroll, status, area)),
{
    if !area.spec_is_empty() {
        let shown = rows_from(rows, scroll);
        lemma_body_starts_on(
            shown,
            area,
            least(shown.len() as int, area.height - 1),
            bounds,
        );
    }
}

fn push_line(list: &mut Vec<Paint>, area: Rect, y: u16, text: String, style: Style)
    ensures
        strokes(final(list)@) == strokes(old(list)@) + line_strokes(
            area,
            y as int,
            text@,
            style_parts(style),
        ),
{
    let ghost before = list@;
    list.push(Paint::Fill { area: Rect::new(area.x, y, area.width, 1), style });
    list.push(Paint::Text { x: area.x, y, text, width: area.width as usize, style });
    assert(strokes(list@) =~= strokes(before) + line_strokes(
        area,
        y as int,
        text@,
        style_parts(style),
    ));
}

impl<'a> NotebookWidget<'a> {
    /// The notebook that is drawn.
    pub closed spec fn shown(self) -> NotebookSnapshot {
        *self.snapshot
    }

    pub fn new(snapshot: &'a NotebookSnapshot) -> (widget: Self)
        ensures
            widget.shown() == *snapshot,
    {
        NotebookWidget { snapshot }
    }

    /// Whether a buffer of the given area takes the drawing.
    pub fn fits(&self, area: Rect, bounds: Rect) -> (result: bool)
        ensures
            result == all_start_on(
                bounds,
                notebook_strokes(
                    book_rows(self.shown().rows@),
                    self.shown().scroll as int,
                    self.shown().status@,
                    area,
                ),
            ),
    {
        proof {
            let rows = book_rows(self.shown().rows@);
            let scroll = self.shown().scroll as int;
            let status = self.shown().status@;
            lemma_plain_notebook(rows, scroll, status, area);
            lemma_no_paragraphs(bounds, notebook_strokes(rows, scroll, status, area));
        }
        takes(bounds, &self.paints(area))
    }

    /// Draws the notebook on the buffer.
    pub fn render(self, area: Rect, buffer: &mut Buffer)
        requires
            all_start_on(
                buffer_area(*old(buffer)),
                notebook_strokes(
                    book_rows(self.shown().rows@),
                    self.shown().scroll as int,
                    self.shown().status@,
                    area,
                ),
            ),
        ensures
            buffer_area(*final(buffer)) == buffer_area(*old(buffer)),
            buffer_cells(*final(buffer)) == drawn(
                buffer_cells(*old(buffer)),
                buffer_area(*old(buffer)),
                notebook_strokes(
                    book_rows(self.shown().rows@),
                    self.shown().scroll as int,
                    self.shown().status@,
                    area,
                ),
            ),
    {
        proof {
            let rows = book_rows(self.shown().rows@);
            let scroll = self.shown().scroll as int;
            let status = self.shown().status@;
            lemma_plain_notebook(rows, scroll, status, area);
            lemma_no_paragraphs(buffer_area(*buffer), notebook_strokes(rows, scroll, status, area));
        }
        paint(buffer, &self.paints(area));
    }

    fn paints(&self, area: Rect) -> (list: Vec<Paint>)
        ensures
            strokes(list@) == notebook_strokes(
                book_rows(self.shown().rows@),
                self.shown().scroll as int,
                self.shown().status@,
                area,
            ),
    {
        let snapshot = self.snapshot;
        let ghost goal = notebook_strokes(
            book_rows(snapshot.rows@),
            snapshot.scroll as int,
            snapshot.status@,
            area,
        );
        let mut list: Vec<Paint> = Vec::new();
        if !area.is_empty() {
            let white = colored(
                colored(plain_style(), HostColor::Ansi(0), false),
                HostColor::Ansi(15),
                true,
            );
            list.push(Paint::Fill { area, style: white });
            let ghost front = strokes(list@);
            let ghost shown = rows_from(book_rows(snapshot.rows@), snapshot.scroll as int);
            let total: usize = snapshot.rows.len();
            let scroll: usize = at_most(snapshot.scroll, total);
            let room: usize = area.height as usize - 1;
            let count: usize = at_most(total - scroll, room);
            let mut i: usize = 0;
            assert(front + body_strokes(shown, area, 0) =~= front);
            while i < count
                invariant
                    total == snapshot.rows@.len(),
                    i <= count <= total - scroll,
                    count < area.height,
                    scroll <= snapshot.rows@.len(),
                    scroll == least(snapshot.scroll as int, snapshot.rows@.len() as int),
                    shown == rows_from(book_rows(snapshot.rows@), snapshot.scroll as int),
                    strokes(list@) == front + body_strokes(shown, area, i as int),
                decreases count - i,
            {
                let row = &snapshot.rows[scroll + i];
                assert(shown[i as int] == row@);
                let y: u16 = area.y.saturating_add(i as u16);
                push_line(&mut list, area, y, row.text.clone(), row_style(row));
                i += 1;
                assert(strokes(list@) =~= front + body_strokes(shown, area, i as int));
            }
            let bar = colored(
                colored(plain_style(), HostColor::Ansi(8), false),
                HostColor::Ansi(15),
                true,
            );
            let y: u16 = area.y.saturating_add(area.height - 1);
            push_line(&mut list, area, y, snapshot.status.clone(), bar);
            proof {
                assert(front =~= seq![Stroke::Fill { area, style: style_parts(white) }]);
                assert(strokes(list@) =~= goal);
            }
        } else {
            assert(strokes(list@) =~= goal);
        }
        list
    }
}

/// What a key asks of a notebook.
#[derive(Debug, PartialEq, Eq)]
pub enum NotebookCommand {
    /// Nothing: a key came up.
    Nothing,
    /// The key belongs to the workspace.
    Unhandled,
    Run,
    RunAndAdvance,
    LeaveEdit,
    /// Type a text into the selected cell.
    Type(String),
    /// Hand a key to the selected cell.
    Press(Keystroke),
    /// A key that the selected cell has no use for.
    Unknown,
    SelectPrevious,
    SelectNext,
    Edit,
    AddCode,
    AddMarkdown,
    ArmDelete,
    Delete,
    MoveUp,
    MoveDown,
    ClearOutputs,
    Interrupt,
    Restart,
    RunAll,
    PageUp,
    PageDown,
    Help,
}

/// The plain values of a [`NotebookCommand`].
pub enum Demand {
    Nothing,
    Unhandled,
    Run,
    RunAndAdvance,
    LeaveEdit,
    Type(Seq<char>),
    Press(KeystrokeView),
    Unknown,
    SelectPrevious,
    SelectNext,
    Edit,
    AddCode,
    AddMarkdown,
    ArmDelete,
    Delete,
    MoveUp,
    MoveDown,
    ClearOutputs,
    Interrupt,
    Restart,
    RunAll,
    PageUp,
    PageDown,
    Help,
}

impl View for NotebookCommand {
    type V = Demand;

    open spec fn view(&self) -> Demand {
        match *self {
            NotebookCommand::Nothing => Demand::Nothing,
            NotebookCommand::Unhandled => Demand::Unhandled,
            NotebookCommand::Run => Demand::Run,
            NotebookCommand::RunAndAdvance => Demand::RunAndAdvance,
            NotebookCommand::LeaveEdit => Demand::LeaveEdit,
            NotebookCommand::Type(text) => Demand::Type(text@),
            NotebookCommand::Press(keystroke) => Demand::Press(keystroke@),
            NotebookCommand::Unknown => Demand::Unknown,
            NotebookCommand::SelectPrevious => Demand::SelectPrevious,
            NotebookCommand::SelectNext => Demand::SelectNext,
            NotebookCommand::Edit => Demand::Edit,
            NotebookCommand::AddCode => Demand::AddCode,
            NotebookCommand::AddMarkdown => Demand::AddMarkdown,
            NotebookCommand::ArmDelete => Demand::ArmDelete,
            NotebookCommand::Delete => Demand::Delete,
            NotebookCommand::MoveUp => Demand::MoveUp,
            NotebookCommand::MoveDown => Demand::MoveDown,
            NotebookCommand::ClearOutputs => Demand::ClearOutputs,
            NotebookCommand::Interrupt => Demand::Interrupt,
            NotebookCommand::Restart => Demand::Restart,
            NotebookCommand::RunAll => Demand::RunAll,
            NotebookCommand::PageUp => Demand::PageUp,
            NotebookCommand::PageDown => Demand::PageDown,
            NotebookCommand::Help => Demand::Help,
        }
    }
}

/// Whether the alternate key alone is held.
pub open spec fn only_alt() -> KeyModifiers {
    KeyModifiers { alt: true, ..no_modifiers() }
}

/// What a key asks for in command mode.
pub open spec fn command_demand(event: KeyEvent, delete_armed: bool) -> Demand {
    let plain = event.modifiers == no_modifiers();
    let alt = event.modifiers == only_alt();
    let shift = event.modifiers == only_shift();
    match event.code {
        KeyCode::Up if plain => Demand::SelectPrevious,
        KeyCode::Down if plain => Demand::SelectNext,
        KeyCode::Enter if plain => Demand::Edit,
        KeyCode::Up if alt => Demand::MoveUp,
        KeyCode::Down if alt => Demand::MoveDown,
        KeyCode::PageUp if plain => Demand::PageUp,
        KeyCode::PageDown if plain => Demand::PageDown,
        KeyCode::Char(c) => if plain && c == 'e' {
            Demand::Edit
        } else if plain && c == 'b' {
            Demand::AddCode
        } else if plain && c == 'm' {
            Demand::AddMarkdown
        } else if plain && c == 'd' {
            if delete_armed {
                Demand::Delete
            } else {
                Demand::ArmDelete
            }
        } else if plain && c == 'c' {
            Demand::ClearOutputs
        } else if plain && c == 'i' {
            Demand::Interrupt
        } else if plain && c == 'r' {
            Demand::Restart
        } else if shift && (c == 'R' || c == 'r') {
            Demand::RunAll
        } else {
            Demand::Help
        },
        _ => Demand::Help,
    }
}

/// Whether a key belongs to the workspace: one of its own, or one that the
/// caller knows.
pub open spec fn workspace_key(event: KeyEvent, known: bool) -> bool {
    known || control_press(event, KeyCode::Char('q')) || control_press(event, KeyCode::Char('s'))
        || control_press(event, KeyCode::Char('w')) || control_press(event, KeyCode::PageUp)
        || control_press(event, KeyCode::PageDown) || control_press(event, KeyCode::Char('n'))
        || control_press(event, KeyCode::Char('o'))
}

/// What a notebook's view holds.
pub struct Book {
    pub mode: NotebookMode,
    pub selected: int,
    pub count: int,
    pub scroll: int,
    pub delete_armed: bool,
    pub authority: Seq<char>,
    pub preserved: Seq<(Seq<char>, Seq<Json>)>,
    pub notice: Seq<char>,
}

/// What is kept but for the outputs of a cell.
pub open spec fn without_cell(list: Seq<(Seq<char>, Seq<Json>)>, id: Seq<char>) -> Seq<
    (Seq<char>, Seq<Json>),
>
    decreases list.len(),
{
    if list.len() == 0 {
        list
    } else if list.last().0 == id {
        without_cell(list.drop_last(), id)
    } else {
        without_cell(list.drop_last(), id).push(list.last())
    }
}

impl Book {
    /// What a key asks for.
    pub open spec fn demand(self, event: KeyEvent, known: bool) -> Demand {
        if event.kind == KeyEventKind::Release {
            Demand::Nothing
        } else if workspace_key(event, known) {
            Demand::Unhandled
        } else if event.code == KeyCode::Enter && event.modifiers == only_control() {
            Demand::Run
        } else if event.code == KeyCode::Enter && event.modifiers == only_shift() {
            Demand::RunAndAdvance
        } else {
            match self.mode {
                NotebookMode::Edit => if event.code == KeyCode::Esc && event.modifiers
                    == no_modifiers() {
                    Demand::LeaveEdit
                } else {
                    match keystroke(event) {
                        Some(stroke) => match stroke.key_char {
                            Some(text) => Demand::Type(text),
                            None => Demand::Press(stroke),
                        },
                        None => Demand::Unknown,
                    }
                },
                NotebookMode::Command => command_demand(event, self.delete_armed),
            }
        }
    }

    /// The view with a notice, ready for the next key.
    pub open spec fn noticed(self, notice: Seq<char>) -> Book {
        Book { notice, delete_armed: false, ..self }
    }

    /// The view once what was asked for is done.
    pub open spec fn done(self, demand: Demand, body_height: int, recovered: int) -> Book {
        let page = greatest(body_height, 1);
        match demand {
            Demand::Nothing | Demand::Unknown => self,
            Demand::Unhandled => Book { delete_armed: false, ..self },
            Demand::Run => self.noticed("cell submitted to the Zed Jupyter session"@),
            Demand::RunAndAdvance => Book {
                selected: word(self.selected + 1),
                mode: NotebookMode::Command,
                ..self.noticed("cell submitted; advanced in command mode"@)
            },
            Demand::LeaveEdit => Book {
                mode: NotebookMode::Command,
                ..self.noticed("notebook command mode"@)
            },
            Demand::Type(_) | Demand::Press(_) => self.noticed(
                "editing selected cell with Zed Editor"@,
            ),
            Demand::SelectPrevious => Book {
                selected: above_zero(self.selected - 1),
                ..self.noticed("selected previous cell"@)
            },
            Demand::SelectNext => Book {
                selected: least(self.selected + 1, above_zero(self.count - 1)),
                ..self.noticed("selected next cell"@)
            },
            Demand::Edit => Book {
                mode: NotebookMode::Edit,
                ..self.noticed("editing selected cell with Zed Editor"@)
            },
            Demand::AddCode => Book {
                selected: word(self.selected + 1),
                count: word(self.count + 1),
                mode: NotebookMode::Edit,
                ..self.noticed("added a code cell below; edit mode"@)
            },
            Demand::AddMarkdown => Book {
                selected: word(self.selected + 1),
                count: word(self.count + 1),
                mode: NotebookMode::Edit,
                ..self.noticed("added a Markdown cell below; edit mode"@)
            },
            Demand::ArmDelete => Book {
                delete_armed: true,
                notice: "press d again to delete the selected cell"@,
                ..self
            },
            Demand::Delete => Book {
                count: above_zero(self.count - 1),
                selected: least(self.selected, above_zero(above_zero(self.count - 1) - 1)),
                ..self.noticed("deleted selected cell"@)
            },
            Demand::MoveUp => Book {
                selected: above_zero(self.selected - 1),
                ..self.noticed("moved selected cell up"@)
            },
            Demand::MoveDown => Book {
                selected: least(self.selected + 1, above_zero(self.count - 1)),
                ..self.noticed("moved selected cell down"@)
            },
            Demand::ClearOutputs => self.noticed("cleared all notebook outputs"@),
            Demand::Interrupt => self.noticed(
                "interrupt requested from the Zed Jupyter session"@,
            ),
            Demand::Restart => self.noticed(
                if recovered == 0 {
                    "kernel restart requested"@
                } else {
                    "kernel restart requested; recovered "@ + decimal(recovered as nat)
                        + " stale starting process(es)"@
                },
            ),
            Demand::RunAll => self.noticed("all code cells submitted to the Zed Jupyter session"@),
            Demand::PageUp => Book {
                scroll: above_zero(self.scroll - page),
                ..self.noticed("notebook page up"@)
            },
            Demand::PageDown => Book {
                scroll: word(self.scroll + page),
                ..self.noticed("notebook page down"@)
            },
            Demand::Help => self.noticed(help_text()),
        }
    }

    /// The view as something that was asked for is begun: outputs that it
    /// makes stale are no longer kept.
    pub open spec fn begun(self, demand: Demand, cells: Seq<Json>) -> Book {
        match demand {
            Demand::Run | Demand::RunAndAdvance => if self.selected < cells.len() && cell_id(
                cells[self.selected],
            ) is Some {
                Book {
                    preserved: without_cell(self.preserved, cell_id(cells[self.selected])->0),
                    ..self
                }
            } else {
                self
            },
            Demand::ClearOutputs | Demand::RunAll => Book { preserved: Seq::empty(), ..self },
            _ => self,
        }
    }
}

/// The keys of a notebook, in words.
pub open spec fn help_text() -> Seq<char> {
    "Notebook keys: \u{2191}/\u{2193} select \u{b7} Enter edit \u{b7} Ctrl/Shift-Enter run \u{b7} b/m add \u{b7} dd delete \u{b7} Alt-\u{2191}/\u{2193} move \u{b7} c clear \u{b7} i interrupt \u{b7} r restart \u{b7} R run all"@
}

/// The view of a notebook.
#[derive(Debug)]
pub struct NotebookState {
    mode: NotebookMode,
    selected_cell: usize,
    cell_count: usize,
    scroll: usize,
    delete_armed: bool,
    last_authority_json: String,
    preserved_outputs: Vec<PreservedOutputs>,
    notice: String,
}

impl View for NotebookState {
    type V = Book;

    closed spec fn view(&self) -> Book {
        Book {
            mode: self.mode,
            selected: self.selected_cell as int,
            count: self.cell_count as int,
            scroll: self.scroll as int,
            delete_armed: self.delete_armed,
            authority: self.last_authority_json@,
            preserved: preserved_views(self.preserved_outputs@),
            notice: self.notice@,
        }
    }
}

fn is_workspace_shortcut(event: &KeyEvent, known: bool) -> (result: bool)
    ensures
        result == workspace_key(*event, known),
{
    known || is_quit(event) || is_save(event) || is_close_tab(event) || is_previous_tab(event)
        || is_next_tab(event) || is_new_tab(event) || is_open(event)
}

fn command_key(event: &KeyEvent, delete_armed: bool) -> (command: NotebookCommand)
    ensures
        command@ == command_demand(*event, delete_armed),
{
    let plain = event.modifiers == KeyModifiers::none();
    let shift = event.modifiers == KeyModifiers::shift();
    let alt = event.modifiers.alt && !event.modifiers.shift && !event.modifiers.control
        && !event.modifiers.super_key && !event.modifiers.hyper && !event.modifiers.meta;
    assert(alt == (event.modifiers == only_alt()));
    match event.code {
        KeyCode::Up => if plain {
            NotebookCommand::SelectPrevious
        } else if alt {
            NotebookCommand::MoveUp
        } else {
            NotebookCommand::Help
        },
        KeyCode::Down => if plain {
            NotebookCommand::SelectNext
        } else if alt {
            NotebookCommand::MoveDown
        } else {
            NotebookCommand::Help
        },
        KeyCode::Enter => if plain {
            NotebookCommand::Edit
        } else {
            NotebookCommand::Help
        },
        KeyCode::PageUp => if plain {
            NotebookCommand::PageUp
        } else {
            NotebookCommand::Help
        },
        KeyCode::PageDown => if plain {
            NotebookCommand::PageDown
        } else {
            NotebookCommand::Help
        },
        KeyCode::Char(c) => if plain && c == 'e' {
            NotebookCommand::Edit
        } else if plain && c == 'b' {
            NotebookCommand::AddCode
        } else if plain && c == 'm' {
            NotebookCommand::AddMarkdown
        } else if plain && c == 'd' {
            if delete_armed {
                NotebookCommand::Delete
            } else {
                NotebookCommand::ArmDelete
            }
        } else if plain && c == 'c' {
            NotebookCommand::ClearOutputs
        } else if plain && c == 'i' {
            NotebookCommand::Interrupt
        } else if plain && c == 'r' {
            NotebookCommand::Restart
        } else if shift && (c == 'R' || c == 'r') {
            NotebookCommand::RunAll
        } else {
            NotebookCommand::Help
        },
        _ => NotebookCommand::Help,
    }
}

impl NotebookState {
    /// The view of a notebook that was just opened: as the editor has it, and
    /// as it was read.
    pub fn open(authority: Value, raw_notebook: &Value) -> (state: Self)
        ensures
            exists|after: Json| #[trigger]
                merged(state@.preserved, json_of(authority), after) && state@ == (Book {
                    mode: NotebookMode::Command,
                    selected: 0,
                    count: cells_of(after).len() as int,
                    scroll: 0,
                    delete_armed: false,
                    authority: pretty_text(after),
                    preserved: preserved(
                        cells_of(json_of(*raw_notebook)),
                        cells_of(json_of(authority)),
                    ),
                    notice:
                        "Zed kernel starting; missing kernels are reported in the selected cell"@,
                }),
    {
        let preserved_outputs = collect_preserved_outputs(raw_notebook, &authority);
        let value = merge_preserved_outputs(authority, &preserved_outputs);
        let cell_count: usize = cell_count(&value);
        let last_authority_json = written(&value);
        let state = NotebookState {
            mode: NotebookMode::Command,
            selected_cell: 0,
            cell_count,
            scroll: 0,
            delete_armed: false,
            last_authority_json,
            preserved_outputs,
            notice:
                "Zed kernel starting; missing kernels are reported in the selected cell".to_string(),
        };
        assert(merged(state@.preserved, json_of(authority), json_of(value)));
        state
    }

    /// The view of a notebook that was just opened: as the editor has it, and
    /// the text that was read. A text that is no JSON holds no outputs.
    pub fn open_text(authority: Value, raw: &str) -> (state: Self)
        ensures
            exists|after: Json| #[trigger]
                merged(state@.preserved, json_of(authority), after) && state@ == (Book {
                    mode: NotebookMode::Command,
                    selected: 0,
                    count: cells_of(after).len() as int,
                    scroll: 0,
                    delete_armed: false,
                    authority: pretty_text(after),
                    preserved: preserved(
                        cells_of(
                            match json_text(raw@) {
                                Some(json) => json,
                                None => Json::Null,
                            },
                        ),
                        cells_of(json_of(authority)),
                    ),
                    notice:
                        "Zed kernel starting; missing kernels are reported in the selected cell"@,
                }),
    {
        let raw_notebook = match read(raw) {
            Some(value) => value,
            None => null_value(),
        };
        NotebookState::open(authority, &raw_notebook)
    }

    fn take_value(&mut self, value: Value) -> (merged_value: Value)
        ensures
            merged(old(self)@.preserved, json_of(value), json_of(merged_value)),
            final(self)@ == (Book {
                count: cells_of(json_of(merged_value)).len() as int,
                selected: cell_within(
                    old(self)@.selected,
                    cells_of(json_of(merged_value)).len() as int,
                ),
                ..old(self)@
            }),
    {
        let merged_value = merge_preserved_outputs(value, &self.preserved_outputs);
        self.cell_count = cell_count(&merged_value);
        self.selected_cell = at_most(self.selected_cell, self.cell_count.saturating_sub(1));
        merged_value
    }

    /// Takes the notebook as the editor has it. The answer is its text, where
    /// it is another than before.
    pub fn synchronize(&mut self, value: Value) -> (changed: Option<String>)
        ensures
            exists|after: Json| #[trigger]
                merged(old(self)@.preserved, json_of(value), after) && {
                    let count = cells_of(after).len() as int;
                    let next = Book {
                        count,
                        selected: cell_within(old(self)@.selected, count),
                        ..old(self)@
                    };
                    if pretty_text(after) == old(self)@.authority {
                        changed is None && final(self)@ == next
                    } else {
                        changed is Some && changed->0@ == pretty_text(after) && final(self)@ == (
                        Book { authority: pretty_text(after), ..next })
                    }
                },
    {
        let merged_value = self.take_value(value);
        let serialized = written(&merged_value);
        assert(merged(old(self)@.preserved, json_of(value), json_of(merged_value)));
        if same_text(serialized.as_str(), self.last_authority_json.as_str()) {
            return None;
        }
        self.last_authority_json = serialized.clone();
        Some(serialized)
    }

    /// Shows the notebook as the editor has it.
    pub fn snapshot(&mut self, value: Value, height: usize, message: Option<&str>) -> (snapshot:
        NotebookSnapshot)
        ensures
            exists|after: Json| #[trigger]
                merged(old(self)@.preserved, json_of(value), after) && {
                    let count = cells_of(after).len() as int;
                    let selected = cell_within(old(self)@.selected, count);
                    let rows = notebook_rows(after, selected, old(self)@.mode);
                    &&& book_rows(snapshot.rows@) == rows
                    &&& snapshot.scroll == scrolled(
                        rows.len() as int,
                        selected_row(after, selected),
                        old(self)@.scroll,
                        height as int,
                    )
                    &&& snapshot.status@ == (match message {
                        Some(message) => message@ + "  |  "@,
                        None => Seq::empty(),
                    }) + status_text(old(self)@.notice)
                    &&& final(self)@ == (Book {
                        count,
                        selected,
                        scroll: snapshot.scroll as int,
                        ..old(self)@
                    })
                },
    {
        let merged_value = self.take_value(value);
        assert(merged(old(self)@.preserved, json_of(value), json_of(merged_value)));
        let mut snapshot = snapshot_from_value(
            &merged_value,
            self.selected_cell,
            self.mode,
            self.scroll,
            height,
            self.notice.as_str(),
        );
        self.scroll = snapshot.scroll;
        match message {
            Some(message) => {
                let mut status = message.to_string();
                status.append("  |  ");
                status.append(snapshot.status.as_str());
                snapshot.status = status;
            },
            None => {
                assert(Seq::<char>::empty() + snapshot.status@ =~= snapshot.status@);
            },
        }
        snapshot
    }

    pub fn mode(&self) -> (mode: NotebookMode)
        ensures
            mode == self@.mode,
    {
        self.mode
    }

    pub fn selected_cell(&self) -> (selected: usize)
        ensures
            selected == self@.selected,
    {
        self.selected_cell
    }

    pub fn notice(&self) -> (notice: &str)
        ensures
            notice@ == self@.notice,
    {
        self.notice.as_str()
    }

    /// What a key asks for. `known` tells whether the caller knows it as a key
    /// of the workspace.
    pub fn handle_key(&self, event: KeyEvent, known: bool) -> (command: NotebookCommand)
        ensures
            command@ == self@.demand(event, known),
    {
        if event.kind == KeyEventKind::Release {
            return NotebookCommand::Nothing;
        }
        if is_workspace_shortcut(&event, known) {
            return NotebookCommand::Unhandled;
        }
        if event.code == KeyCode::Enter && event.modifiers == KeyModifiers::control() {
            return NotebookCommand::Run;
        }
        if event.code == KeyCode::Enter && event.modifiers == KeyModifiers::shift() {
            return NotebookCommand::RunAndAdvance;
        }
        match self.mode {
            NotebookMode::Edit => if event.code == KeyCode::Esc && event.modifiers
                == KeyModifiers::none() {
                NotebookCommand::LeaveEdit
            } else {
                match to_gpui_keystroke(event) {
                    Some(stroke) => match &stroke.key_char {
                        Some(text) => NotebookCommand::Type(text.clone()),
                        None => NotebookCommand::Press(stroke),
                    },
                    None => NotebookCommand::Unknown,
                }
            },
            NotebookMode::Command => command_key(&event, self.delete_armed),
        }
    }

    /// Whether what was asked for begins with a look at the notebook.
    pub fn looks_first(command: &NotebookCommand) -> (result: bool)
        ensures
            result == (command@ is Run || command@ is RunAndAdvance),
    {
        matches!(command, NotebookCommand::Run | NotebookCommand::RunAndAdvance)
    }

    /// Begins what was asked for, before the editor is told.
    pub fn begin(&mut self, command: &NotebookCommand, value: &Value)
        ensures
            final(self)@ == old(self)@.begun(command@, cells_of(json_of(*value))),
    {
        match command {
            NotebookCommand::Run | NotebookCommand::RunAndAdvance => {
                if let Some(cells) = notebook_cells(value) {
                    assert(json_list(cells@).len() == cells@.len());
                    if self.selected_cell < cells.len() {
                        assert(cells_of(json_of(*value))[self.selected_cell as int] == json_of(
                            cells@[self.selected_cell as int],
                        ));
                        if let Some(id) = id_of(&cells[self.selected_cell]) {
                            self.forget(id);
                        }
                    }
                }
            },
            NotebookCommand::ClearOutputs | NotebookCommand::RunAll => {
                self.preserved_outputs = Vec::new();
                assert(preserved_views(self.preserved_outputs@) =~= Seq::<
                    (Seq<char>, Seq<Json>),
                >::empty());
            },
            _ => {},
        }
    }

    fn forget(&mut self, id: &str)
        ensures
            final(self)@ == (Book {
                preserved: without_cell(old(self)@.preserved, id@),
                ..old(self)@
            }),
    {
        let ghost all = preserved_views(self.preserved_outputs@);
        let mut left: Vec<PreservedOutputs> = Vec::new();
        let mut i: usize = 0;
        assert(all.take(0) =~= Seq::<(Seq<char>, Seq<Json>)>::empty());
        assert(preserved_views(left@) =~= all.take(0));
        while i < self.preserved_outputs.len()
            invariant
                i <= self.preserved_outputs@.len(),
                all == preserved_views(self.preserved_outputs@),
                preserved_views(left@) == without_cell(all.take(i as int), id@),
            decreases self.preserved_outputs@.len() - i,
        {
            let entry = &self.preserved_outputs[i];
            let ghost before = preserved_views(left@);
            proof {
                assert(all.take(i + 1).drop_last() =~= all.take(i as int));
                assert(all.take(i + 1).last() == (entry.id@, json_list(entry.outputs@)));
            }
            if !same_text(entry.id.as_str(), id) {
                left.push(
                    PreservedOutputs {
                        id: entry.id.clone(),
                        outputs: copy_values(&entry.outputs),
                    },
                );
                assert(preserved_views(left@) =~= before.push(
                    (entry.id@, json_list(entry.outputs@)),
                ));
            }
            i += 1;
        }
        assert(all.take(i as int) =~= all);
        self.preserved_outputs = left;
    }

    fn notify(&mut self, notice: &str)
        ensures
            final(self)@ == old(self)@.noticed(notice@),
    {
        self.notice = notice.to_string();
        self.delete_armed = false;
    }

    fn advance(&mut self)
        ensures
            final(self)@ == (Book {
                selected: least(old(self)@.selected + 1, above_zero(old(self)@.count - 1)),
                ..old(self)@
            }),
    {
        self.selected_cell = at_most(
            self.selected_cell.saturating_add(1),
            self.cell_count.saturating_sub(1),
        );
    }

    fn add_cell(&mut self)
        ensures
            final(self)@ == (Book {
                selected: word(old(self)@.selected + 1),
                count: word(old(self)@.count + 1),
                mode: NotebookMode::Edit,
                ..old(self)@
            }),
    {
        self.selected_cell = self.selected_cell.saturating_add(1);
        self.cell_count = self.cell_count.saturating_add(1);
        self.mode = NotebookMode::Edit;
    }

    /// Ends what was asked for, once the editor was told.
    pub fn complete(&mut self, command: &NotebookCommand, body_height: usize, recovered: usize)
        ensures
            final(self)@ == old(self)@.done(command@, body_height as int, recovered as int),
    {
        let page: usize = if body_height < 1 {
            1
        } else {
            body_height
        };
        match command {
            NotebookCommand::Nothing => {},
            NotebookCommand::Unknown => {},
            NotebookCommand::Unhandled => {
                self.delete_armed = false;
            },
            NotebookCommand::Run => self.notify("cell submitted to the Zed Jupyter session"),
            NotebookCommand::RunAndAdvance => {
                self.selected_cell = self.selected_cell.saturating_add(1);
                self.mode = NotebookMode::Command;
                self.notify("cell submitted; advanced in command mode");
            },
            NotebookCommand::LeaveEdit => {
                self.mode = NotebookMode::Command;
                self.notify("notebook command mode");
            },
            NotebookCommand::Type(_) => self.notify("editing selected cell with Zed Editor"),
            NotebookCommand::Press(_) => self.notify("editing selected cell with Zed Editor"),
            NotebookCommand::SelectPrevious => {
                self.selected_cell = self.selected_cell.saturating_sub(1);
                self.notify("selected previous cell");
            },
            NotebookCommand::SelectNext => {
                self.advance();
                self.notify("selected next cell");
            },
            NotebookCommand::Edit => {
                self.mode = NotebookMode::Edit;
                self.notify("editing selected cell with Zed Editor");
            },
            NotebookCommand::AddCode => {
                self.add_cell();
                self.notify("added a code cell below; edit mode");
            },
            NotebookCommand::AddMarkdown => {
                self.add_cell();
                self.notify("added a Markdown cell below; edit mode");
            },
            NotebookCommand::ArmDelete => {
                self.delete_armed = true;
                self.notice = "press d again to delete the selected cell".to_string();
            },
            NotebookCommand::Delete => {
                self.cell_count = self.cell_count.saturating_sub(1);
                self.selected_cell = at_most(
                    self.selected_cell,
                    self.cell_count.saturating_sub(1),
                );
                self.notify("deleted selected cell");
            },
            NotebookCommand::MoveUp => {
                self.selected_cell = self.selected_cell.saturating_sub(1);
                self.notify("moved selected cell up");
            },
            NotebookCommand::MoveDown => {
                self.advance();
                self.notify("moved selected cell down");
            },
            NotebookCommand::ClearOutputs => self.notify("cleared all notebook outputs"),
            NotebookCommand::Interrupt => self.notify(
                "interrupt requested from the Zed Jupyter session",
            ),
            NotebookCommand::Restart => {
                if recovered == 0 {
                    self.notify("kernel restart requested");
                } else {
                    let mut text = "kernel restart requested; recovered ".to_string();
                    push_decimal(&mut text, recovered as u64);
                    text.append(" stale starting process(es)");
                    self.notify(text.as_str());
                }
            },
            NotebookCommand::RunAll => self.notify(
                "all code cells submitted to the Zed Jupyter session",
            ),
            NotebookCommand::PageUp => {
                self.scroll = self.scroll.saturating_sub(page);
                self.notify("notebook page up");
            },
            NotebookCommand::PageDown => {
                self.scroll = self.scroll.saturating_add(page);
                self.notify("notebook page down");
            },
            NotebookCommand::Help => self.notify(
                "Notebook keys: \u{2191}/\u{2193} select \u{b7} Enter edit \u{b7} Ctrl/Shift-Enter run \u{b7} b/m add \u{b7} dd delete \u{b7} Alt-\u{2191}/\u{2193} move \u{b7} c clear \u{b7} i interrupt \u{b7} r restart \u{b7} R run all",
            ),
        }
    }

    /// Takes pasted text. The answer is the text for the selected cell, in
    /// edit mode.
    pub fn handle_paste(&mut self, text: &str) -> (typed: Option<String>)
        ensures
            match typed {
                Some(typed) => old(self)@.mode == NotebookMode::Edit && typed@ == text@
                    && final(self)@ == old(self)@,
                None => old(self)@.mode == NotebookMode::Command && final(self)@ == (Book {
                    notice: "paste ignored in command mode; press Enter to edit the cell"@,
                    ..old(self)@
                }),
            },
    {
        match self.mode {
            NotebookMode::Edit => Some(text.to_string()),
            NotebookMode::Command => {
                self.notice = "paste ignored in command mode; press Enter to edit the cell".to_string();
                None
            },
        }
    }

    /// Ends a paste, once the text stands in the selected cell.
    pub fn complete_paste(&mut self)
        ensures
            final(self)@ == old(self)@.noticed("pasted into the selected Zed cell editor"@),
    {
        self.notify("pasted into the selected Zed cell editor");
    }

    pub fn scroll(&mut self, down: bool, amount: usize)
        ensures
            final(self)@ == (Book {
                scroll: if down {
                    word(old(self)@.scroll + amount)
                } else {
                    above_zero(old(self)@.scroll - amount)
                },
                delete_armed: false,
                ..old(self)@
            }),
    {
        self.scroll = if down {
            self.scroll.saturating_add(amount)
        } else {
            self.scroll.saturating_sub(amount)
        };
        self.delete_armed = false;
    }
}

fn written(value: &Value) -> (text: String)
    ensures
        text@ == pretty_text(json_of(*value)),
{
    match pretty(value) {
        Some(text) => text,
        None => String::new(),
    }
}

/// A cell is deleted by two presses of the key, one right behind the other:
/// whatever is done in between, another key disarms the first press.
pub proof fn deleting_takes_two_presses(
    book: Book,
    event: KeyEvent,
    known: bool,
    body_height: int,
    recovered: int,
)
    ensures
        book.demand(event, known) is Delete ==> book.delete_armed,
        ({
            let next = book.done(book.demand(event, known), body_height, recovered);
            next.delete_armed ==> book.demand(event, known) is ArmDelete || book.demand(
                event,
                known,
            ) is Nothing || book.demand(event, known) is Unknown
        }),
{
}

/// The selection stays among the cells when it is moved or a cell is deleted.
pub proof fn the_selection_stays_among_the_cells(
    book: Book,
    demand: Demand,
    body_height: int,
    recovered: int,
)
    requires
        0 <= book.selected,
        0 < book.count,
        book.selected < book.count,
        book.count < usize::MAX,
        !(demand is RunAndAdvance),
        !(demand is Delete && book.count == 1),
    ensures
        ({
            let next = book.done(demand, body_height, recovered);
            0 <= next.selected < next.count
        }),
{
}

/// A process as the system lists it.
#[derive(Debug)]
pub struct KernelProcess {
    pub pid: u32,
    pub parent: Option<u32>,
    pub arguments: Vec<String>,
}

/// The name of the connection file of a notebook's kernel.
pub open spec fn connection_file(id: int) -> Seq<char> {
    "kernel-zed-"@ + decimal(id as nat) + ".json"@
}

/// The name of the connection file of the kernel of the notebook `id`.
pub fn connection_file_name(id: u64) -> (name: String)
    ensures
        name@ == connection_file(id as int),
{
    let mut name = "kernel-zed-".to_string();
    push_decimal(&mut name, id);
    name.append(".json");
    name
}

/// Whether an argument of a command names a connection file: as it stands, or
/// as the last part of a path that is no option.
pub open spec fn names_connection(argument: Seq<char>, name: Seq<char>) -> bool {
    argument == name || !(argument.len() > 0 && argument[0] == '-') && name_of(parts(argument)) == Some(
        name,
    )
}

/// Whether an argument of a command names a connection file.
pub fn is_connection_file_argument(argument: &str, connection_file_name: &str) -> (result: bool)
    ensures
        result == names_connection(argument@, connection_file_name@),
{
    if same_text(argument, connection_file_name) {
        return true;
    }
    if starts_with(argument, "-") {
        proof {
            reveal_strlit("-");
            assert(argument@[0] == "-"@[0]);
        }
        return false;
    }
    proof {
        reveal_strlit("-");
        if argument@.len() > 0 && argument@[0] == '-' {
            assert(argument@.subrange(0, 1) =~= "-"@);
        }
    }
    match file_name(&components(argument)) {
        Some(name) => same_text(name.as_str(), connection_file_name),
        None => false,
    }
}

/// The parent of a process: of the first that is listed under the number.
pub open spec fn parent_process(list: Seq<KernelProcess>, pid: int) -> Option<int>
    decreases list.len(),
{
    if list.len() == 0 {
        None
    } else if list[0].pid == pid {
        match list[0].parent {
            Some(parent) => Some(parent as int),
            None => None,
        }
    } else {
        parent_process(list.skip(1), pid)
    }
}

/// The ancestor of a process that many steps up.
pub open spec fn ancestor(list: Seq<KernelProcess>, pid: int, steps: nat) -> Option<int>
    decreases steps,
{
    if steps == 0 {
        Some(pid)
    } else {
        match ancestor(list, pid, (steps - 1) as nat) {
            Some(pid) => parent_process(list, pid),
            None => None,
        }
    }
}

/// Whether a process is the owner, or comes from it by no more steps than
/// there are processes.
pub open spec fn descends_from(list: Seq<KernelProcess>, pid: int, owner: int) -> bool {
    exists|steps: nat|
        steps <= list.len() && #[trigger] ancestor(list, pid, steps) == Some(owner)
}

fn parent_of_process(list: &Vec<KernelProcess>, pid: u32) -> (parent: Option<u32>)
    ensures
        match parent {
            Some(parent) => parent_process(list@, pid as int) == Some(parent as int),
            None => parent_process(list@, pid as int) is None,
        },
{
    let mut i: usize = 0;
    assert(list@.skip(0) =~= list@);
    while i < list.len()
        invariant
            i <= list@.len(),
            parent_process(list@, pid as int) == parent_process(list@.skip(i as int), pid as int),
        decreases list@.len() - i,
    {
        proof {
            assert(list@.skip(i as int)[0] == list@[i as int]);
            assert(list@.skip(i as int).skip(1) =~= list@.skip(i + 1));
        }
        if list[i].pid == pid {
            return list[i].parent;
        }
        i += 1;
    }
    None
}

/// Whether a process is the owner or comes from it.
pub fn process_is_descendant_of(list: &Vec<KernelProcess>, pid: u32, owner: u32) -> (result: bool)
    ensures
        result == descends_from(list@, pid as int, owner as int),
{
    let total: usize = list.len();
    let mut cursor: Option<u32> = Some(pid);
    let mut steps: usize = 0;
    while steps <= total
        invariant
            total == list@.len(),
            steps <= total + 1,
            match cursor {
                Some(at) => ancestor(list@, pid as int, steps as nat) == Some(at as int),
                None => ancestor(list@, pid as int, steps as nat) is None,
            },
            forall|k: nat|
                k < steps ==> #[trigger] ancestor(list@, pid as int, k) != Some(owner as int),
        decreases total + 1 - steps,
    {
        let at = match cursor {
            Some(at) => at,
            None => {
                proof {
                    assert forall|k: nat| k >= steps implies #[trigger] ancestor(
                        list@,
                        pid as int,
                        k,
                    ) is None by {
                        lemma_no_ancestor(list@, pid as int, steps as nat, k);
                    }
                }
                return false;
            },
        };
        if at == owner {
            return true;
        }
        cursor = parent_of_process(list, at);
        if steps == total {
            return false;
        }
        steps += 1;
    }
    false
}

proof fn lemma_no_ancestor(list: Seq<KernelProcess>, pid: int, from: nat, to: nat)
    requires
        from <= to,
        ancestor(list, pid, from) is None,
    ensures
        ancestor(list, pid, to) is None,
    decreases to,
{
    if from < to {
        lemma_no_ancestor(list, pid, from, (to - 1) as nat);
    }
}

/// Whether a process is a kernel of the notebook that owns the connection
/// file.
pub open spec fn is_kernel(
    list: Seq<KernelProcess>,
    index: int,
    name: Seq<char>,
    owner: int,
) -> bool {
    (exists|k: int|
        0 <= k < list[index].arguments@.len() && names_connection(
            #[trigger] list[index].arguments@[k]@,
            name,
        )) && descends_from(list, list[index].pid as int, owner)
}

/// The kernels among the first processes of a list.
pub open spec fn kernels(
    list: Seq<KernelProcess>,
    count: int,
    name: Seq<char>,
    owner: int,
    requested: Option<Seq<u32>>,
) -> Seq<u32>
    decreases count,
{
    if count <= 0 {
        Seq::empty()
    } else {
        let before = kernels(list, count - 1, name, owner, requested);
        let pid = list[count - 1].pid;
        if (requested is None || requested->0.contains(pid)) && is_kernel(
            list,
            count - 1,
            name,
            owner,
        ) {
            before.push(pid)
        } else {
            before
        }
    }
}

fn uses_connection_file(process: &KernelProcess, connection_file_name: &str) -> (result: bool)
    ensures
        result == exists|k: int|
            0 <= k < process.arguments@.len() && names_connection(
                #[trigger] process.arguments@[k]@,
                connection_file_name@,
            ),
{
    let mut i: usize = 0;
    while i < process.arguments.len()
        invariant
            i <= process.arguments@.len(),
            forall|k: int|
                0 <= k < i ==> !names_connection(
                    #[trigger] process.arguments@[k]@,
                    connection_file_name@,
                ),
        decreases process.arguments@.len() - i,
    {
        if is_connection_file_argument(process.arguments[i].as_str(), connection_file_name) {
            return true;
        }
        i += 1;
    }
    false
}

fn holds_pid(list: &Vec<u32>, pid: u32) -> (result: bool)
    ensures
        result == list@.contains(pid),
{
    let mut i: usize = 0;
    while i < list.len()
        invariant
            i <= list@.len(),
            forall|k: int| 0 <= k < i ==> list@[k] != pid,
        decreases list@.len() - i,
    {
        if list[i] == pid {
            return true;
        }
        i += 1;
    }
    false
}

/// The kernels of a notebook among the processes of the system: those that
/// come from this program and name the connection file, and, where a list is
/// given, stand on it.
pub fn kernel_processes(
    list: &Vec<KernelProcess>,
    connection_file_name: &str,
    owner: Option<u32>,
    requested: &Option<Vec<u32>>,
) -> (pids: Vec<u32>)
    ensures
        pids@ == match owner {
            Some(owner) => kernels(
                list@,
                list@.len() as int,
                connection_file_name@,
                owner as int,
                match requested {
                    Some(requested) => Some(requested@),
                    None => None,
                },
            ),
            None => Seq::empty(),
        },
{
    let owner = match owner {
        Some(owner) => owner,
        None => {
            return Vec::new();
        },
    };
    let ghost wanted = match requested {
        Some(requested) => Some(requested@),
        None => None,
    };
    let mut pids: Vec<u32> = Vec::new();
    let mut i: usize = 0;
    while i < list.len()
        invariant
            i <= list@.len(),
            wanted == (match requested {
                Some(requested) => Some(requested@),
                None => None,
            }),
            pids@ == kernels(list@, i as int, connection_file_name@, owner as int, wanted),
        decreases list@.len() - i,
    {
        let pid = list[i].pid;
        let asked = match requested {
            Some(requested) => holds_pid(requested, pid),
            None => true,
        };
        if asked && uses_connection_file(&list[i], connection_file_name)
            && process_is_descendant_of(list, pid, owner) {
            pids.push(pid);
        }
        i += 1;
    }
    pids
}

/// Only processes that come from this program, and name the connection file,
/// are taken for kernels.
pub proof fn only_own_kernels_are_chosen(
    list: Seq<KernelProcess>,
    count: int,
    name: Seq<char>,
    owner: int,
    requested: Option<Seq<u32>>,
    pid: u32,
)
    requires
        0 <= count <= list.len(),
        kernels(list, count, name, owner, requested).contains(pid),
    ensures
        exists|i: int| 0 <= i < count && list[i].pid == pid && #[trigger] is_kernel(
            list,
            i,
            name,
            owner,
        ),
        requested is Some ==> requested->0.contains(pid),
    decreases count,
{
    if count > 0 {
        let before = kernels(list, count - 1, name, owner, requested);
        if before.contains(pid) {
            only_own_kernels_are_chosen(list, count - 1, name, owner, requested, pid);
        } else {
            let all = kernels(list, count, name, owner, requested);
            let k = choose|k: int| 0 <= k < all.len() && all[k] == pid;
            assert(k < before.len() ==> before[k] == pid);
            assert(is_kernel(list, count - 1, name, owner));
        }
    }
}

/// Whether a path is one of a notebook.
pub open spec fn notebook_path(path: Seq<char>) -> bool {
    match name_of(parts(path)) {
        Some(name) => ends(name, ".ipynb"@) && name != ".ipynb"@,
        None => false,
    }
}

/// Whether a path is one of a notebook.
pub fn is_notebook_path(path: &str) -> (result: bool)
    ensures
        result == notebook_path(path@),
{
    match file_name(&components(path)) {
        Some(name) => ends_with(name.as_str(), ".ipynb") && !same_text(name.as_str(), ".ipynb"),
        None => false,
    }
}

} // verus!
