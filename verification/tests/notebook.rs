use zec::input::{KeyCode, KeyEvent, KeyModifiers};
use zec::notebook::{
    cell_count, collect_preserved_outputs, connection_file_name, is_connection_file_argument, is_notebook_path,
    kernel_processes, merge_preserved_outputs, process_is_descendant_of, snapshot_from_value, split_output_lines,
    value_to_text, KernelProcess, NotebookCommand, NotebookMode, NotebookRowKind, NotebookState,
    MAX_OUTPUT_LINES_PER_CELL,
};

fn json(text: &str) -> serde_json::Value {
    serde_json::from_str(text).unwrap()
}

#[test]
fn matches_only_the_exact_zed_kernel_connection_argument() {
    let expected = "kernel-zed-42.json";
    assert!(is_connection_file_argument("/tmp/jupyter/kernel-zed-42.json", expected));
    assert!(!is_connection_file_argument("/tmp/jupyter/kernel-zed-43.json", expected));
    assert!(!is_connection_file_argument("--connection=/tmp/jupyter/kernel-zed-42.json", expected));
}

#[test]
fn projects_code_markdown_stream_error_and_image_fallback() {
    let notebook = json(
        r##"{
        "metadata": {"kernelspec": {"display_name": "Fixture Python"}},
        "nbformat": 4,
        "nbformat_minor": 5,
        "cells": [
            {
                "cell_type": "markdown",
                "id": "m",
                "metadata": {},
                "source": ["# Heading\n", "日本語"]
            },
            {
                "cell_type": "code",
                "id": "c",
                "metadata": {},
                "execution_count": 7,
                "source": ["print('ok')\n"],
                "outputs": [
                    {"output_type": "stream", "name": "stdout", "text": ["ok\n"]},
                    {"output_type": "error", "ename": "ValueError", "evalue": "bad", "traceback": ["trace"]},
                    {"output_type": "display_data", "metadata": {}, "data": {"image/png": "AAAA"}}
                ]
            }
        ]
    }"##,
    );
    let snapshot = snapshot_from_value(&notebook, 1, NotebookMode::Command, 0, 30, "ready");
    let text = snapshot
        .rows
        .iter()
        .map(|row| row.text.as_str())
        .collect::<Vec<_>>()
        .join("\n");
    assert!(text.contains("Notebook · Fixture Python · 2 cells · command mode"));
    assert!(text.contains("# Heading"));
    assert!(text.contains("日本語"));
    assert!(text.contains("In[7]"));
    assert!(text.contains("ok"));
    assert!(text.contains("ValueError: bad"));
    assert!(text.contains("image/png output · 4 encoded bytes"));
    assert!(
        snapshot
            .rows
            .iter()
            .any(|row| row.selected && row.text.contains("Cell 2"))
    );
}

#[test]
fn preserves_outputs_that_upstream_notebook_serialization_omits() {
    let raw = json(
        r#"{
        "cells": [{
            "id": "cell-a",
            "outputs": [{
                "data": {"image/png": "aGVsbG8="},
                "metadata": {},
                "output_type": "display_data"
            }]
        }]
    }"#,
    );
    let authority = json(r#"{"cells": [{"cell_type": "code", "id": "cell-a", "outputs": []}]}"#);
    let preserved = collect_preserved_outputs(&raw, &authority);
    let authority = merge_preserved_outputs(authority, &preserved);

    assert_eq!(
        authority.pointer("/cells/0/outputs/0/output_type"),
        Some(&json(r#""display_data""#))
    );
    assert_eq!(
        authority.pointer("/cells/0/outputs/0/data/image~1png"),
        Some(&json(r#""aGVsbG8=""#))
    );
}

#[test]
fn output_projection_limit_is_global_per_cell() {
    let outputs = (0..MAX_OUTPUT_LINES_PER_CELL + 100)
        .map(|_| r#"{"output_type": "stream", "name": "stdout", "text": "x"}"#)
        .collect::<Vec<_>>()
        .join(",");
    let notebook = json(&format!(
        r#"{{
        "metadata": {{}},
        "nbformat": 4,
        "nbformat_minor": 5,
        "cells": [{{
            "cell_type": "code",
            "id": "bounded-output",
            "metadata": {{}},
            "execution_count": null,
            "source": [],
            "outputs": [{outputs}]
        }}]
    }}"#
    ));

    let snapshot = snapshot_from_value(&notebook, 0, NotebookMode::Command, 0, 20, "ready");
    assert_eq!(
        snapshot
            .rows
            .iter()
            .filter(|row| row.kind == NotebookRowKind::Output)
            .count(),
        MAX_OUTPUT_LINES_PER_CELL
    );
    assert_eq!(
        snapshot
            .rows
            .iter()
            .filter(|row| row.text.contains("output projection limit reached"))
            .count(),
        1
    );
}

#[test]
fn selected_cell_is_scrolled_into_the_bounded_view() {
    let cells = (0..100)
        .map(|index| {
            format!(
                r#"{{
                "cell_type": "code",
                "id": "cell-{index}",
                "metadata": {{}},
                "execution_count": null,
                "source": ["CELL_{index}"],
                "outputs": []
            }}"#
            )
        })
        .collect::<Vec<_>>()
        .join(",");
    let notebook = json(&format!(
        r#"{{"metadata": {{}}, "nbformat": 4, "nbformat_minor": 5, "cells": [{cells}]}}"#
    ));
    let snapshot = snapshot_from_value(&notebook, 99, NotebookMode::Edit, 0, 8, "editing");
    let visible = snapshot
        .rows
        .iter()
        .skip(snapshot.scroll)
        .take(7)
        .map(|row| row.text.as_str())
        .collect::<Vec<_>>()
        .join("\n");
    assert!(visible.contains("Cell 100"));
    assert!(snapshot.status.contains("Ctrl-S save"));
}

fn press(code: KeyCode) -> KeyEvent {
    KeyEvent::new(code, KeyModifiers::none())
}

fn two_cells() -> serde_json::Value {
    json(
        r#"{"metadata": {}, "cells": [
            {"cell_type": "code", "id": "a", "source": "1", "outputs": []},
            {"cell_type": "code", "id": "b", "source": "2", "outputs": []}
        ]}"#,
    )
}

fn run(state: &mut NotebookState, event: KeyEvent) -> NotebookCommand {
    let command = state.handle_key(event, false);
    state.begin(&command, &two_cells());
    state.complete(&command, 10, 0);
    command
}

#[test]
fn two_presses_delete_a_cell_and_another_key_disarms() {
    let mut state = NotebookState::open(two_cells(), &serde_json::Value::Null);
    assert!(matches!(run(&mut state, press(KeyCode::Char('d'))), NotebookCommand::ArmDelete));
    assert_eq!(state.notice(), "press d again to delete the selected cell");
    assert!(matches!(run(&mut state, press(KeyCode::Down)), NotebookCommand::SelectNext));
    assert_eq!(state.selected_cell(), 1);
    assert!(matches!(run(&mut state, press(KeyCode::Char('d'))), NotebookCommand::ArmDelete));
    assert!(matches!(run(&mut state, press(KeyCode::Char('d'))), NotebookCommand::Delete));
    assert_eq!(state.selected_cell(), 0);
    assert_eq!(state.notice(), "deleted selected cell");
}

#[test]
fn keys_go_to_the_cell_in_edit_mode() {
    let mut state = NotebookState::open(two_cells(), &serde_json::Value::Null);
    assert_eq!(state.handle_paste("x"), None);
    assert!(matches!(run(&mut state, press(KeyCode::Enter)), NotebookCommand::Edit));
    assert_eq!(state.mode(), NotebookMode::Edit);
    assert!(matches!(run(&mut state, press(KeyCode::Char('d'))), NotebookCommand::Type(text) if text == "d"));
    assert!(matches!(run(&mut state, press(KeyCode::Left)), NotebookCommand::Press(stroke) if stroke.key == "left"));
    assert_eq!(state.handle_paste("x").as_deref(), Some("x"));
    state.complete_paste();
    assert_eq!(state.notice(), "pasted into the selected Zed cell editor");
    assert!(matches!(
        run(&mut state, KeyEvent::new(KeyCode::Char('s'), KeyModifiers::control())),
        NotebookCommand::Unhandled
    ));
    assert!(matches!(run(&mut state, press(KeyCode::Esc)), NotebookCommand::LeaveEdit));
    assert_eq!(state.mode(), NotebookMode::Command);
    assert!(matches!(
        run(&mut state, KeyEvent::new(KeyCode::Enter, KeyModifiers::shift())),
        NotebookCommand::RunAndAdvance
    ));
    assert_eq!(state.selected_cell(), 1);
}

#[test]
fn kept_outputs_are_shown_until_the_cell_runs() {
    let raw = json(r#"{"cells": [{"id": "a", "outputs": [{"output_type": "stream", "text": "kept"}]}]}"#);
    let mut state = NotebookState::open(two_cells(), &raw);
    let shows = |state: &mut NotebookState| {
        let snapshot = state.snapshot(two_cells(), 20, Some("saved"));
        assert!(snapshot.status.starts_with("saved  |  "));
        snapshot.rows.iter().any(|row| row.text.contains("kept"))
    };
    assert!(shows(&mut state));
    assert_eq!(state.synchronize(two_cells()), None);
    run(&mut state, KeyEvent::new(KeyCode::Enter, KeyModifiers::control()));
    assert!(!shows(&mut state));
    let written = state.synchronize(two_cells()).unwrap();
    assert!(written.contains("\n"), "{written}");
    assert_eq!(cell_count(&json(&written)), 2);
}

#[test]
fn scrolling_stops_at_the_top() {
    let mut state = NotebookState::open(two_cells(), &serde_json::Value::Null);
    state.scroll(true, 3);
    state.scroll(false, 100);
    assert_eq!(state.snapshot(two_cells(), 5, None).scroll, 0);
}

#[test]
fn only_kernels_of_this_program_are_found() {
    let process = |pid: u32, parent: Option<u32>, arguments: &[&str]| KernelProcess {
        pid,
        parent,
        arguments: arguments.iter().map(|argument| argument.to_string()).collect(),
    };
    let name = connection_file_name(42);
    assert_eq!(name, "kernel-zed-42.json");
    let list = vec![
        process(1, None, &[]),
        process(10, Some(1), &["zec"]),
        process(11, Some(10), &["python", "/tmp/kernel-zed-42.json"]),
        process(12, Some(1), &["python", "/tmp/kernel-zed-42.json"]),
        process(13, Some(14), &[]),
        process(14, Some(13), &["kernel-zed-42.json"]),
    ];
    assert_eq!(kernel_processes(&list, &name, Some(10), &None), vec![11]);
    assert_eq!(kernel_processes(&list, &name, Some(10), &Some(vec![12])), Vec::<u32>::new());
    assert_eq!(kernel_processes(&list, &name, None, &None), Vec::<u32>::new());
    assert!(process_is_descendant_of(&list, 10, 10));
    assert!(!process_is_descendant_of(&list, 13, 10));
}

#[test]
fn texts_of_cells_are_joined() {
    assert_eq!(value_to_text(&json(r#"["a\n", "b"]"#)), "a\nb");
    assert_eq!(value_to_text(&json(r#"{"a":1}"#)), "{\"a\":1}");
    assert_eq!(split_output_lines("a\nb".to_owned()), vec!["a", "b"]);
    assert!(is_notebook_path("dir/a.ipynb"));
    assert!(!is_notebook_path("dir/.ipynb"));
    assert!(!is_notebook_path("a.rs"));
}

#[test]
fn the_text_of_a_notebook_keeps_its_outputs() {
    let shows = |raw: &str| {
        let mut state = NotebookState::open_text(two_cells(), raw);
        state.snapshot(two_cells(), 20, None).rows.iter().any(|row| row.text.contains("kept"))
    };
    assert!(shows(r#"{"cells": [{"id": "a", "outputs": [{"output_type": "stream", "text": "kept"}]}]}"#));
    assert!(!shows(r#"{"cells": [{"id": "a", "outputs": [{"output_type": "stream", "text": "kept"}]}]"#));
    assert!(!shows("null"));
    assert!(!shows(""));
}

#[test]
fn only_runs_look_at_the_notebook_first() {
    assert!(NotebookState::looks_first(&NotebookCommand::Run));
    assert!(NotebookState::looks_first(&NotebookCommand::RunAndAdvance));
    assert!(!NotebookState::looks_first(&NotebookCommand::RunAll));
    assert!(!NotebookState::looks_first(&NotebookCommand::Unhandled));
}

#[test]
fn keys_stay_in_their_places() {
    let raw = json(r#"{"cells": [{"id": "a", "outputs": ["kept"]}]}"#);
    let authority = json(r#"{"nbformat": 4, "cells": [{"source": "1", "id": "a", "cell_type": "code"}], "extra": 1}"#);
    let keys = |value: &serde_json::Value| value.as_object().unwrap().keys().cloned().collect::<Vec<_>>();
    let kept = collect_preserved_outputs(&raw, &authority);
    let merged = merge_preserved_outputs(authority.clone(), &kept);
    assert_eq!(keys(&merged), keys(&authority));
    let cell = keys(&merged["cells"][0]);
    let others = cell.iter().filter(|key| *key != "outputs").cloned().collect::<Vec<_>>();
    assert_eq!(others, keys(&authority["cells"][0]));
    assert_eq!(cell.len(), 4);
}
