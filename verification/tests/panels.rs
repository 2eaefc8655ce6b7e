use std::collections::BTreeSet;

use ratatui::style::{Color, Modifier, Style};
use zec::features::context::{Command, Ctx, Overlay, PanelOutcome, PickerPayload, PromptTarget};
use zec::features::project_panel::{
    parent_index, relative, rows, Mutation, ProjectPanel, ProjectPanelEvent, TreeEntry,
};
use zec::features::tasks::{worktree_context, Task, Tasks, TasksEvent};
use zec::features::terminal_panel::{
    bounded_title, capture, cell_style, color, named_color, terminal_cursor, Cell, CellColor, Content, NamedColor,
    TaskStatus, TerminalKey, TerminalOutcome, TerminalPanel, TerminalPanelEvent,
};
use zec::features::theme_picker::{theme_applied, Theme, ThemePicker};
use zec::input::{to_gpui_keystroke, KeyCode, KeyEvent, KeyModifiers};
use zec::paint::HostColor;

fn ctx() -> Ctx {
    Ctx { root: Some("/repo".to_owned()), active_item: 1, overlays: Vec::new(), status: None }
}

fn labels(ctx: &Ctx) -> Vec<(&str, &str)> {
    match ctx.overlays.last() {
        Some(Overlay::Picker { list, .. }) => {
            list.entries.iter().map(|entry| (entry.label.as_str(), entry.detail.as_str())).collect()
        }
        other => panic!("expected a picker, not {other:?}"),
    }
}

fn node(id: u64, parent: usize, path: &str, is_dir: bool, is_ignored: bool) -> TreeEntry {
    let name = path.rsplit('/').next().unwrap();
    TreeEntry {
        id,
        parent,
        path: format!("/repo/{path}"),
        name: name.to_owned(),
        is_dir,
        is_ignored,
    }
}

fn tree() -> Vec<TreeEntry> {
    vec![
        TreeEntry {
            id: 1,
            parent: 0,
            path: "/repo".to_owned(),
            name: String::new(),
            is_dir: true,
            is_ignored: false,
        },
        node(2, 0, "Zed.md", false, false),
        node(3, 0, "src", true, false),
        node(4, 0, "target", true, true),
        node(5, 2, "src/Main.rs", false, false),
        node(6, 2, "src/lib.rs", false, false),
        node(7, 0, "abc", false, false),
    ]
}

fn texts(panel: &mut ProjectPanel) -> Vec<String> {
    panel.view(&ctx(), &tree(), 10).rows.into_iter().map(|row| row.text).collect()
}

#[test]
fn directories_come_before_files_in_any_case() {
    let mut panel = ProjectPanel::default();
    assert_eq!(texts(&mut panel), vec!["▸ src", "  abc", "  Zed.md"]);
    let mut ctx = ctx();
    panel.execute(&mut ctx, Command::PanelToggleIgnored, false, &tree(), &None, "x");
    assert_eq!(ctx.status.as_deref(), Some("showing ignored entries"));
    assert_eq!(texts(&mut panel), vec!["▸ src", "▸ target [ignored]", "  abc", "  Zed.md"]);
    assert_eq!(panel.view(&ctx, &tree(), 10).title, " repo +ignored ");
    panel.execute(&mut ctx, Command::PanelToggleIgnored, false, &tree(), &None, "x");
    assert_eq!(ctx.status.as_deref(), Some("hiding ignored entries"));
    let open = rows(&tree(), &BTreeSet::from([3]), false);
    assert_eq!(open.iter().map(|row| (row.id, row.depth)).collect::<Vec<_>>(), vec![(3, 0), (6, 1), (5, 1), (7, 0), (2, 0)]);
    assert_eq!(parent_index(&open, 2), Some(0));
    assert_eq!(parent_index(&open, 3), None);
}

#[test]
fn the_tree_is_walked_by_keys() {
    let mut panel = ProjectPanel::default();
    let mut ctx = ctx();
    let mut run = |panel: &mut ProjectPanel, command: Command| {
        panel.execute(&mut ctx, command, false, &tree(), &None, "x").outcome
    };
    run(&mut panel, Command::PanelExpand);
    assert_eq!(texts(&mut panel), vec!["▾ src", "    lib.rs", "    Main.rs", "  abc", "  Zed.md"]);
    run(&mut panel, Command::PanelExpand);
    assert_eq!(panel.view(&self::ctx(), &tree(), 10).selected, Some(1));
    assert!(matches!(run(&mut panel, Command::PanelActivate), PanelOutcome::Open(path) if path == "/repo/src/lib.rs"));
    run(&mut panel, Command::PanelCollapse);
    assert_eq!(panel.view(&self::ctx(), &tree(), 10).selected, Some(0));
    run(&mut panel, Command::PanelActivate);
    assert_eq!(texts(&mut panel).len(), 3);
    run(&mut panel, Command::PanelSelectNext);
    run(&mut panel, Command::PanelSelectPrevious);
    run(&mut panel, Command::PanelSelectPrevious);
    assert_eq!(panel.view(&self::ctx(), &tree(), 10).selected, Some(0));
    panel.click(&tree(), 2);
    assert_eq!(panel.view(&self::ctx(), &tree(), 10).selected, Some(2));
}

#[test]
fn files_are_created_renamed_and_deleted_on_request() {
    let mut panel = ProjectPanel::default();
    let mut ctx = ctx();
    panel.click(&tree(), 1);
    panel.execute(&mut ctx, Command::PanelNewFile, false, &tree(), &None, "x");
    let Some(Overlay::Prompt { label, target: PromptTarget::PanelNewFile { directory }, .. }) = ctx.overlays.last()
    else {
        panic!("expected a prompt")
    };
    assert_eq!((label.as_str(), directory.as_str()), ("New file", "/repo"));
    let target = PromptTarget::PanelNewFile { directory: "/repo".to_owned() };
    assert!(panel.submit(&mut ctx, &target, "/etc").is_none());
    assert!(matches!(
        ctx.overlays.last(),
        Some(Overlay::Prompt { feedback: Some(text), .. }) if text == "enter a name relative to the directory"
    ));
    let request = panel.submit(&mut ctx, &target, " new.rs ").unwrap();
    assert_eq!(request.description, "created new.rs");
    assert_eq!(request.reveal.as_deref(), Some("/repo/new.rs"));
    assert_eq!(
        request.mutation,
        Mutation::Create { path: "/repo/new.rs".to_owned(), is_directory: false }
    );
    panel.execute(&mut ctx, Command::PanelRename, false, &tree(), &None, "x");
    assert!(matches!(
        ctx.overlays.last(),
        Some(Overlay::Prompt { line, target: PromptTarget::PanelRename { entry: 7, directory }, .. })
            if line.text() == "abc" && directory == "/repo"
    ));
    let target = PromptTarget::PanelRename { entry: 7, directory: "/repo".to_owned() };
    let request = panel.submit(&mut ctx, &target, "b").unwrap();
    assert_eq!(request.description, "renamed to b");

    let step = panel.execute(&mut ctx, Command::PanelDelete, false, &tree(), &None, "D");
    assert!(step.request.is_none());
    assert!(matches!(
        ctx.overlays.last(),
        Some(Overlay::Confirm { message, command: Command::PanelDelete })
            if message == "delete abc? press D again to confirm"
    ));
    let step = panel.execute(&mut ctx, Command::PanelDelete, true, &tree(), &None, "D");
    assert_eq!(step.request.unwrap().mutation, Mutation::Delete(7));
    let empty = Vec::new();
    panel.execute(&mut ctx, Command::PanelDelete, false, &empty, &None, "D");
    assert_eq!(ctx.status.as_deref(), Some("nothing selected"));
    assert_eq!(relative(&ctx, "/other/x"), "/other/x");
}

#[test]
fn the_active_file_is_revealed() {
    let mut panel = ProjectPanel::default();
    let mut ctx = ctx();
    panel.execute(&mut ctx, Command::PanelRevealActive, false, &tree(), &Some("/none".to_owned()), "x");
    assert_eq!(ctx.status.as_deref(), Some("the active tab has no file in the project"));
    assert!(panel.reveal_active(&tree(), &Some("/repo/src/Main.rs".to_owned())));
    let view = panel.view(&ctx, &tree(), 10);
    assert_eq!(view.rows[view.selected.unwrap()].text, "    Main.rs");
    panel.update(
        &mut ctx,
        ProjectPanelEvent::MutationFinished {
            description: "created x".to_owned(),
            reveal: Some("/repo/src/lib.rs".to_owned()),
            result: Ok(()),
        },
        &tree(),
    );
    assert_eq!(ctx.status.as_deref(), Some("created x"));
    let view = panel.view(&ctx, &tree(), 10);
    assert_eq!(view.rows[view.selected.unwrap()].text, "    lib.rs");
    panel.update(
        &mut ctx,
        ProjectPanelEvent::MutationFinished {
            description: "created x".to_owned(),
            reveal: None,
            result: Err("full".to_owned()),
        },
        &tree(),
    );
    assert_eq!(ctx.status.as_deref(), Some("created x failed: full"));
}

#[test]
fn the_active_theme_is_listed_first() {
    let theme = |name: &str, light: bool| Theme { name: name.to_owned(), light };
    let themes = vec![theme("b", true), theme("a", false), theme("c", false)];
    let mut ctx = ctx();
    let mut picker = ThemePicker::default();
    picker.open(&mut ctx, "c", &themes);
    assert_eq!(labels(&ctx), vec![("c", "(dark)"), ("a", "(dark)"), ("b", "(light)")]);
    assert_eq!(picker.pick(&mut ctx, 2).as_deref(), Some("b"));
    assert!(ctx.overlays.is_empty());
    assert_eq!(picker.pick(&mut ctx, 3), None);
    theme_applied(&mut ctx, "b", Ok(()));
    assert_eq!(ctx.status.as_deref(), Some("theme: b"));
    theme_applied(&mut ctx, "b", Err("gone".to_owned()));
    assert_eq!(ctx.status.as_deref(), Some("theme failed: gone"));
}

#[test]
fn tasks_are_listed_once_the_used_ones_first() {
    let task = |id: &str, key: usize| Task {
        id: id.to_owned(),
        label: format!("run {id}"),
        command_label: format!("sh {id}"),
        key,
    };
    let mut ctx = ctx();
    let mut tasks = Tasks::default();
    assert!(!tasks.ready(&mut ctx, false, true));
    assert_eq!(ctx.status.as_deref(), Some("tasks need a directory root"));
    assert!(!tasks.ready(&mut ctx, true, false));
    assert_eq!(ctx.status.as_deref(), Some("tasks are unavailable"));
    tasks.run(&mut ctx, Vec::new(), Vec::new());
    assert_eq!(ctx.status.as_deref(), Some("no tasks; define them in .zed/tasks.json under the root"));
    tasks.run(&mut ctx, vec![task("b", 0)], vec![task("a", 1), task("b", 2)]);
    assert_eq!(labels(&ctx), vec![("run b", "sh b"), ("run a", "sh a")]);
    assert!(matches!(
        ctx.overlays.last(),
        Some(Overlay::Picker { list, .. }) if list.entries[1].payload == PickerPayload::Index(1)
    ));
    assert!(tasks.pick(&mut ctx, 5).is_none());
    assert_eq!(tasks.pick(&mut ctx, 1).unwrap().key, 1);
    assert!(ctx.overlays.is_empty());
    assert!(!tasks.rerun(&mut ctx, true, false));
    assert_eq!(ctx.status.as_deref(), Some("no task has run yet"));
    tasks.started(&mut ctx, "x", &Ok(()));
    assert_eq!(ctx.status.as_deref(), Some("running task x"));
    tasks.started(&mut ctx, "x", &Err("no shell".to_owned()));
    assert_eq!(ctx.status.as_deref(), Some("task x failed to start: no shell"));
    tasks.update(&mut ctx, TasksEvent::Finished { label: "x".to_owned(), success: false });
    assert_eq!(ctx.status.as_deref(), Some("task x failed"));
    let context = worktree_context("/repo");
    assert_eq!((context.cwd.as_deref(), context.worktree_root.as_str()), (Some("/repo"), "/repo"));
}

#[test]
fn terminals_are_numbered_and_walked_around() {
    let mut panel = TerminalPanel::default();
    assert!(panel.is_empty());
    assert_eq!(panel.select_adjacent(true), None);
    assert_eq!((panel.adopt(10), panel.adopt(20), panel.adopt(30)), (1, 2, 3));
    assert_eq!(panel.select_adjacent(true), Some(1));
    assert_eq!(panel.select_adjacent(false), Some(3));
    assert!(matches!(panel.update(TerminalPanelEvent::Closed { entity_id: 30 }), TerminalOutcome::Continue));
    assert_eq!(panel.active_terminal(), Some(20));
    assert_eq!(panel.adopt(40), 4);
    let stroke = to_gpui_keystroke(KeyEvent::new(KeyCode::Char('é'), KeyModifiers::none())).unwrap();
    assert_eq!(panel.key(&stroke, true), TerminalKey::Taken);
    assert_eq!(panel.key(&stroke, false), TerminalKey::Input("é".to_owned()));
    let arrow = to_gpui_keystroke(KeyEvent::new(KeyCode::Left, KeyModifiers::none())).unwrap();
    assert_eq!(panel.key(&arrow, false), TerminalKey::Ignored);
    panel.close_all();
    assert_eq!(panel.active_number(), None);
    assert_eq!(panel.key(&stroke, true), TerminalKey::Ignored);
    assert!(matches!(panel.update(TerminalPanelEvent::Closed { entity_id: 1 }), TerminalOutcome::Emptied));
}

fn cell(line: i32, column: usize, character: char) -> Cell {
    Cell {
        line,
        column,
        character,
        zerowidth: Vec::new(),
        is_wide_char_spacer: false,
        foreground: CellColor::Named(NamedColor::Foreground),
        background: CellColor::Named(NamedColor::Background),
        is_inverse: false,
        is_bold: false,
        is_dim: false,
        is_italic: false,
        has_underline: false,
        has_undercurl: false,
        has_strikeout: false,
        selected: false,
    }
}

#[test]
fn the_screen_of_a_terminal_is_captured() {
    let content = Content {
        cells: vec![
            cell(-2, 0, 'a'),
            Cell { zerowidth: vec!['\u{301}'], ..cell(-2, 1, 'e') },
            Cell { is_wide_char_spacer: true, ..cell(-2, 2, ' ') },
            cell(0, 0, 'x'),
            cell(-1, 9, 'y'),
        ],
        screen_lines: 2,
        columns: 4,
        cursor_line: -1,
        cursor_column: 3,
        show_cursor: true,
        cursor_hidden: false,
        scrolled_to_bottom: true,
    };
    let shot = capture(&content, 3, "ba\u{7}sh", Some(TaskStatus::Completed { success: true }));
    assert_eq!(shot.title, " Terminal 3 · bash · passed ");
    let cells: Vec<(usize, usize, &str)> =
        shot.cells.iter().map(|cell| (cell.row, cell.column, cell.symbol.as_str())).collect();
    assert_eq!(cells, vec![(0, 0, "a"), (0, 1, "e\u{301}")]);
    assert_eq!(shot.cursor, Some((1, 3)));
    let scrolled = Content { scrolled_to_bottom: false, ..content };
    assert_eq!(terminal_cursor(&scrolled), None);
    assert_eq!(capture(&scrolled, 1, "\n", None).title, " Terminal 1 · shell · scrollback ");
    assert_eq!(bounded_title(&"x".repeat(80)).len(), 60);
}

#[test]
fn cells_take_the_colors_of_the_host() {
    assert_eq!(cell_style(&cell(0, 0, 'a')), Style::default());
    let styled = Cell {
        foreground: CellColor::Spec(1, 2, 3),
        background: CellColor::Indexed(9),
        is_inverse: true,
        is_bold: true,
        has_undercurl: true,
        selected: true,
        ..cell(0, 0, 'a')
    };
    assert_eq!(
        cell_style(&styled),
        Style::default()
            .fg(Color::Indexed(9))
            .bg(Color::Rgb(1, 2, 3))
            .add_modifier(Modifier::BOLD | Modifier::UNDERLINED | Modifier::REVERSED)
    );
    let named = Cell {
        foreground: CellColor::Named(NamedColor::White),
        background: CellColor::Named(NamedColor::BrightRed),
        is_dim: true,
        is_italic: true,
        has_strikeout: true,
        ..cell(0, 0, 'a')
    };
    assert_eq!(
        cell_style(&named),
        Style::default()
            .fg(Color::Gray)
            .bg(Color::LightRed)
            .add_modifier(Modifier::DIM | Modifier::ITALIC | Modifier::CROSSED_OUT)
    );
    assert_eq!(named_color(NamedColor::Foreground, true), None);
    assert_eq!(named_color(NamedColor::Foreground, false), Some(HostColor::Ansi(15)));
    assert_eq!(named_color(NamedColor::Background, true), Some(HostColor::Ansi(0)));
    assert_eq!(color(CellColor::Spec(1, 2, 3), true), Some(HostColor::Rgb(1, 2, 3)));
}
